//! Packets and their frames: a `VarInt` length, a `VarInt` id, the fields.
pub mod compression;
pub mod login;
pub mod play;
pub mod reassembly;
pub mod status;

use crate::buffer::{
    bytes_contents, bytes_mut_contents, chunk_mut, freeze, put_slice, remaining, split_to,
    with_capacity, with_room_for,
};
use crate::codec::{
    add_hints, followed_by, sum_of, DecodeError, EncodeError, Packet, Transcodeable,
};
use crate::types::string::StringN;
use crate::types::varint::{
    leb128, leb128_len, lemma_leb128_len_bounds, lemma_leb128_parse_in_bounds,
    lemma_varint_round_trip, VarInt,
};
use crate::wire::{
    is_rest_of, lemma_prefix_of_prefix, lemma_rest_of_rest, lemma_skip_skip, unsigned_value,
};
use bytes::{Bytes, BytesMut};
use vstd::prelude::*;

pub use reassembly::{frame_extent, next_frame, take_frames};
pub use compression::{
    compress, compression_level, decompess, named_level, read_compression_header,
    DEFAULT_COMPRESSION_LEVEL,
};

verus! {

/// The first packet of a connection: what the client speaks, where it thinks
/// it connected to, and which phase it wants next.
#[derive(Debug, PartialEq, Eq)]
pub struct Handshake {
    pub version: VarInt,
    pub address: StringN<255>,
    pub port: u16,
    pub next: VarInt,
}

impl View for Handshake {
    type V = (i32, Seq<char>, u16, i32);

    open spec fn view(&self) -> (i32, Seq<char>, u16, i32) {
        (self.version@, self.address@, self.port, self.next@)
    }
}

impl Packet for Handshake {
    open spec fn spec_id() -> i32 {
        0x00
    }

    fn id() -> (id: i32) {
        0x00
    }
}

impl Transcodeable for Handshake {
    /// The fields in the order of their declaration.
    open spec fn encoding(v: (i32, Seq<char>, u16, i32)) -> Result<Seq<u8>, EncodeError> {
        followed_by(
            followed_by(
                followed_by(VarInt::encoding(v.0), StringN::<255>::encoding(v.1)),
                u16::encoding(v.2),
            ),
            VarInt::encoding(v.3),
        )
    }

    /// The fields in the order of their declaration, each from where the one
    /// before it ended.
    open spec fn parse(s: Seq<u8>) -> Result<((i32, Seq<char>, u16, i32), nat), DecodeError> {
        match VarInt::parse(s) {
            Err(e) => Err(e),
            Ok((version, n1)) => match StringN::<255>::parse(s.skip(n1 as int)) {
                Err(e) => Err(e),
                Ok((address, n2)) => match u16::parse(s.skip((n1 + n2) as int)) {
                    Err(e) => Err(e),
                    Ok((port, n3)) => match VarInt::parse(s.skip((n1 + n2 + n3) as int)) {
                        Err(e) => Err(e),
                        Ok((next, n4)) => Ok(
                            ((version, address, port, next), n1 + n2 + n3 + n4),
                        ),
                    },
                },
            },
        }
    }

    proof fn lemma_parse_in_bounds(s: Seq<u8>) {
        VarInt::lemma_parse_in_bounds(s);
        if let Ok((_, n1)) = VarInt::parse(s) {
            StringN::<255>::lemma_parse_in_bounds(s.skip(n1 as int));
            if let Ok((_, n2)) = StringN::<255>::parse(s.skip(n1 as int)) {
                if let Ok((_, n3)) = u16::parse(s.skip((n1 + n2) as int)) {
                    VarInt::lemma_parse_in_bounds(s.skip((n1 + n2 + n3) as int));
                }
            }
        }
    }

    fn encode(&self, buf: &mut BytesMut) -> (r: Result<(), EncodeError>) {
        let ghost b0 = bytes_mut_contents(*buf);
        self.version.encode(buf)?;
        let ghost b1 = bytes_mut_contents(*buf);
        let step = self.address.encode(buf);
        let ghost b2 = bytes_mut_contents(*buf);
        proof {
            lemma_prefix_of_prefix(b0, b1, b2);
        }
        step?;
        self.port.encode(buf)?;
        self.next.encode(buf)?;
        assert(bytes_mut_contents(*buf) =~= b0 + Self::encoding(self@).unwrap());
        Ok(())
    }

    fn decode(buf: &mut Bytes) -> (r: Result<Self, DecodeError>) {
        let ghost s = bytes_contents(*buf);
        proof {
            VarInt::lemma_parse_in_bounds(s);
        }
        let version = VarInt::decode(buf)?;
        let ghost n1 = VarInt::parse(s).unwrap().1;
        let ghost s1 = bytes_contents(*buf);
        proof {
            StringN::<255>::lemma_parse_in_bounds(s1);
        }
        let address = match StringN::<255>::decode(buf) {
            Ok(v) => v,
            Err(e) => {
                proof {
                    lemma_rest_of_rest(bytes_contents(*buf), s1, s);
                }
                return Err(e);
            },
        };
        let ghost n2 = StringN::<255>::parse(s1).unwrap().1;
        let ghost s2 = bytes_contents(*buf);
        proof {
            lemma_skip_skip(s, n1, n2);
        }
        let port = match u16::decode(buf) {
            Ok(v) => v,
            Err(e) => {
                proof {
                    lemma_rest_of_rest(bytes_contents(*buf), s2, s);
                }
                return Err(e);
            },
        };
        let ghost s3 = bytes_contents(*buf);
        proof {
            lemma_skip_skip(s, n1 + n2, 2);
            VarInt::lemma_parse_in_bounds(s3);
        }
        let next = match VarInt::decode(buf) {
            Ok(v) => v,
            Err(e) => {
                proof {
                    lemma_rest_of_rest(bytes_contents(*buf), s3, s);
                }
                return Err(e);
            },
        };
        proof {
            let n4 = VarInt::parse(s3).unwrap().1;
            lemma_skip_skip(s, n1 + n2 + 2, n4);
        }
        Ok(Handshake { version, address, port, next })
    }

    /// The sum of the sizes of the fields, where all are known.
    open spec fn size(v: (i32, Seq<char>, u16, i32)) -> Option<nat> {
        sum_of(
            sum_of(sum_of(VarInt::size(v.0), StringN::<255>::size(v.1)), u16::size(v.2)),
            VarInt::size(v.3),
        )
    }

    proof fn lemma_size_is_exact(v: (i32, Seq<char>, u16, i32)) {
        VarInt::lemma_size_is_exact(v.0);
        StringN::<255>::lemma_size_is_exact(v.1);
        u16::lemma_size_is_exact(v.2);
        VarInt::lemma_size_is_exact(v.3);
    }

    fn size_hint(&self) -> (r: Option<usize>) {
        add_hints(
            add_hints(
                add_hints(self.version.size_hint(), self.address.size_hint()),
                self.port.size_hint(),
            ),
            self.next.size_hint(),
        )
    }
}

/// A handshake read back from its own fields is itself, whatever follows
/// them on the wire, where the reading side admits the address: where not
/// only its characters but also its bytes are at most 255.
pub proof fn lemma_handshake_round_trip(v: (i32, Seq<char>, u16, i32), rest: Seq<u8>)
    requires
        v.1.len() <= 255,
        vstd::utf8::encode_utf8(v.1).len() <= 255,
    ensures
        Handshake::encoding(v) matches Ok(w) && Handshake::parse(w + rest) == Ok::<
            ((i32, Seq<char>, u16, i32), nat),
            DecodeError,
        >((v, w.len())) && w.len() <= 5 + 257 + 2 + 5,
{
    let a = VarInt::encoding(v.0).unwrap();
    let b = StringN::<255>::encoding(v.1).unwrap();
    let c = u16::encoding(v.2).unwrap();
    let d = VarInt::encoding(v.3).unwrap();
    let w = a + b + c + d;
    let s = w + rest;
    lemma_varint_round_trip(v.0, b + c + d + rest);
    crate::types::string::lemma_string_round_trip::<255>(v.1, c + d + rest);
    crate::codec::lemma_u16_round_trip(v.2, d + rest);
    lemma_varint_round_trip(v.3, rest);
    lemma_leb128_len_bounds(vstd::utf8::encode_utf8(v.1).len());
    crate::wire::lemma_be_bytes_len(v.2 as nat, 2);
    assert(s =~= a + (b + c + d + rest));
    assert(s.skip(a.len() as int) =~= b + (c + d + rest));
    assert(s.skip((a.len() + b.len()) as int) =~= c + (d + rest));
    assert(s.skip((a.len() + b.len() + c.len()) as int) =~= d + rest);
}

/// The frame around a packet body: the length of id and body, the id, the
/// body. A frame whose length does not fit a `VarInt` cannot be built.
pub open spec fn framed(id: i32, body: Seq<u8>) -> Result<Seq<u8>, EncodeError> {
    let id_bytes = leb128(unsigned_value(id as int, 32));
    if id_bytes.len() + body.len() > i32::MAX {
        Err(EncodeError::ValueTooLarge)
    } else {
        Ok(leb128((id_bytes.len() + body.len()) as nat) + id_bytes + body)
    }
}

/// The frame of a packet, or the reason it has none.
pub open spec fn frame_of<P: Packet>(v: P::V) -> Result<Seq<u8>, EncodeError> {
    match P::encoding(v) {
        Err(e) => Err(e),
        Ok(body) => framed(P::spec_id(), body),
    }
}

/// Two `VarInt`s one after the other, and the bytes each takes.
pub open spec fn parse_pair(s: Seq<u8>) -> Result<(i32, i32, nat, nat), DecodeError> {
    match VarInt::parse(s) {
        Err(e) => Err(e),
        Ok((a, n1)) => match VarInt::parse(s.skip(n1 as int)) {
            Err(e) => Err(e),
            Ok((b, n2)) => Ok((a, b, n1, n2)),
        },
    }
}

/// The two numbers in front of a packet, length and id, and the bytes they
/// take together.
pub open spec fn parse_header(s: Seq<u8>) -> Result<(i32, i32, nat), DecodeError> {
    match parse_pair(s) {
        Err(e) => Err(e),
        Ok((len, id, n1, n2)) => Ok((len, id, n1 + n2)),
    }
}

/// The packet in the frame at the front of `s`, and the bytes the frame
/// takes. The id is held against the expected one first; then the announced
/// length, which counts the bytes of the id, against what is there. The
/// fields are read from the frame's own bytes, and bytes of it that they
/// leave are passed over.
pub open spec fn parse_frame<P: Packet>(s: Seq<u8>) -> Result<(P::V, nat), DecodeError> {
    match parse_pair(s) {
        Err(e) => Err(e),
        Ok((len, id, n1, n2)) => {
            if id != P::spec_id() {
                Err(DecodeError::UnexpectedMessageId)
            } else if len < n2 || s.len() - n1 - n2 < len - n2 {
                Err(DecodeError::TruncatedInput)
            } else {
                match P::parse(s.subrange((n1 + n2) as int, n1 + len)) {
                    Err(e) => Err(e),
                    Ok((v, _)) => Ok((v, (n1 + len) as nat)),
                }
            }
        },
    }
}

/// A packet that reads back from its own fields reads back from its own
/// frame, whatever follows the frame on the wire, and the frame is taken
/// whole.
pub proof fn lemma_frame_round_trip<P: Packet>(v: P::V, rest: Seq<u8>)
    requires
        frame_of::<P>(v) is Ok,
        P::encoding(v) matches Ok(body) && P::parse(body) matches Ok((x, _)) && x == v,
    ensures
        frame_of::<P>(v) matches Ok(frame) && parse_frame::<P>(frame + rest) == Ok::<
            (P::V, nat),
            DecodeError,
        >((v, frame.len())),
{
    let body = P::encoding(v).unwrap();
    let id = P::spec_id();
    let id_bytes = leb128(unsigned_value(id as int, 32));
    let total = id_bytes.len() + body.len();
    let frame = leb128(total) + id_bytes + body;
    let s = frame + rest;
    lemma_leb128_len_bounds(total);
    lemma_varint_round_trip(total as i32, id_bytes + body + rest);
    lemma_varint_round_trip(id, body + rest);
    let n1 = leb128_len(total);
    let n2 = id_bytes.len();
    assert(s =~= leb128(total) + (id_bytes + body + rest));
    assert(s.skip(n1 as int) =~= id_bytes + (body + rest));
    assert(s.subrange((n1 + n2) as int, (n1 + total) as int) =~= body);
}

/// Builds the frame around a packet body that is already encoded.
pub fn frame_body(id: i32, body: &[u8]) -> (r: Result<Bytes, EncodeError>)
    ensures
        match framed(id, body@) {
            Ok(frame) => r matches Ok(b) && bytes_contents(b) == frame,
            Err(e) => r matches Err(x) && x == e,
        },
{
    let id = VarInt(id);
    let id_size = match id.size_hint() {
        Some(n) => n,
        None => 5,
    };
    proof {
        lemma_leb128_len_bounds(unsigned_value(id@ as int, 32));
    }
    let len = body.len();
    if len > i32::MAX as usize - id_size {
        return Err(EncodeError::ValueTooLarge);
    }
    let size = VarInt((len + id_size) as i32);
    let mut buf = with_room_for(len + 8);
    size.encode(&mut buf)?;
    id.encode(&mut buf)?;
    put_slice(&mut buf, body);
    assert(bytes_mut_contents(buf) =~= framed(id@, body@).unwrap());
    Ok(freeze(buf))
}

/// Builds the frame of `packet`. Where the packet knows its size, the frame
/// is written into one buffer of that size; where it does not, the body is
/// encoded first and then measured.
pub fn encode<P: Packet>(packet: P) -> (r: Result<Bytes, EncodeError>)
    ensures
        match frame_of::<P>(packet@) {
            Ok(frame) => r matches Ok(b) && bytes_contents(b) == frame,
            Err(e) => r matches Err(x) && x == e,
        },
{
    let id = VarInt(packet.id_self());
    let id_size = match id.size_hint() {
        Some(n) => n,
        None => 5,
    };
    let ghost id_bytes = leb128(unsigned_value(P::spec_id() as int, 32));
    proof {
        lemma_leb128_len_bounds(unsigned_value(P::spec_id() as int, 32));
        P::lemma_size_is_exact(packet@);
    }
    let room = i32::MAX as usize - id_size;
    let known = match packet.size_hint() {
        Some(hint) => if hint <= room {
            Some(hint)
        } else {
            None
        },
        None => None,
    };
    match known {
        Some(hint) => {
            let size = VarInt((hint + id_size) as i32);
            let header_hint = match size.size_hint() {
                Some(n) => n,
                None => 5,
            };
            let mut buf = with_room_for(header_hint + hint);
            size.encode(&mut buf)?;
            id.encode(&mut buf)?;
            packet.encode(&mut buf)?;
            assert(bytes_mut_contents(buf) =~= leb128((id_bytes.len() + hint) as nat) + id_bytes
                + P::encoding(packet@).unwrap());
            Ok(freeze(buf))
        },
        None => {
            let mut body = with_capacity(64);
            packet.encode(&mut body)?;
            frame_body(id.0, chunk_mut(&body))
        },
    }
}

/// Takes the two numbers in front of a packet off `buf`: the announced
/// length, as the machine casts it, and the id.
pub fn read_header(buf: &mut Bytes) -> (r: Result<(usize, i32), DecodeError>)
    ensures
        match parse_header(bytes_contents(*old(buf))) {
            Ok((len, id, h)) => r == Ok::<(usize, i32), DecodeError>((len as usize, id))
                && bytes_contents(*final(buf)) == bytes_contents(*old(buf)).skip(h as int),
            Err(e) => r == Err::<(usize, i32), DecodeError>(e) && is_rest_of(
                bytes_contents(*final(buf)),
                bytes_contents(*old(buf)),
            ),
        },
{
    let raw = read_pair(buf)?;
    Ok((raw.0 as usize, raw.1))
}

/// Takes two `VarInt`s off `buf`; the third number is the bytes that the
/// second one took.
pub(crate) fn read_pair(buf: &mut Bytes) -> (r: Result<(i32, i32, usize), DecodeError>)
    ensures
        match parse_pair(bytes_contents(*old(buf))) {
            Ok((a, b, n1, n2)) => r == Ok::<(i32, i32, usize), DecodeError>((a, b, n2 as usize))
                && 1 <= n2 <= 5 && n1 + n2 <= bytes_contents(*old(buf)).len() && bytes_contents(
                *final(buf),
            ) == bytes_contents(*old(buf)).skip((n1 + n2) as int),
            Err(e) => r == Err::<(i32, i32, usize), DecodeError>(e) && is_rest_of(
                bytes_contents(*final(buf)),
                bytes_contents(*old(buf)),
            ),
        },
{
    let ghost s = bytes_contents(*buf);
    proof {
        lemma_leb128_parse_in_bounds(s, 5);
    }
    let first = VarInt::decode(buf)?;
    let ghost s1 = bytes_contents(*buf);
    let before = remaining(buf);
    proof {
        lemma_leb128_parse_in_bounds(s1, 5);
    }
    let second = match VarInt::decode(buf) {
        Ok(v) => v,
        Err(e) => {
            proof {
                lemma_rest_of_rest(bytes_contents(*buf), s1, s);
            }
            return Err(e);
        },
    };
    let taken = before - remaining(buf);
    proof {
        let n1 = VarInt::parse(s).unwrap().1;
        let n2 = VarInt::parse(s1).unwrap().1;
        lemma_skip_skip(s, n1, n2);
    }
    Ok((first.0, second.0, taken))
}

/// Takes one frame off the front of `buf` and decodes the packet in it.
pub fn decode<P: Packet>(buf: &mut Bytes) -> (r: Result<P, DecodeError>)
    ensures
        match parse_frame::<P>(bytes_contents(*old(buf))) {
            Ok((v, n)) => r matches Ok(x) && x@ == v && bytes_contents(*final(buf))
                == bytes_contents(*old(buf)).skip(n as int),
            Err(e) => r matches Err(x) && x == e && is_rest_of(
                bytes_contents(*final(buf)),
                bytes_contents(*old(buf)),
            ),
        },
{
    let ghost s = bytes_contents(*buf);
    let (len, id, id_size) = read_pair(buf)?;
    let ghost n1 = parse_pair(s).unwrap().2;
    if id != P::id() {
        return Err(DecodeError::UnexpectedMessageId);
    }
    if len < id_size as i32 {
        return Err(DecodeError::TruncatedInput);
    }
    let body_len = len as usize - id_size;
    if remaining(buf) < body_len {
        return Err(DecodeError::TruncatedInput);
    }
    let mut frame = split_to(buf, body_len);
    proof {
        assert(bytes_contents(frame) =~= s.subrange((n1 + id_size) as int, n1 + len));
        assert(bytes_contents(*buf) =~= s.skip((n1 + len) as int));
        lemma_skip_skip(s, (n1 + len) as nat, 0);
    }
    P::decode(&mut frame)
}

} // verus!
