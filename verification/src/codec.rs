//! The encode/decode contract that every wire type meets, its errors, and
//! the codecs of the fixed-width types.
use crate::buffer::{
    bytes_contents, bytes_mut_contents, get_i16, get_i32, get_i64, get_i8, get_u128, get_u16,
    get_u8, put_i16, put_i32, put_i64, put_i8, put_u128, put_u16, put_u8, remaining,
};
use crate::wire::{
    be_bytes, be_value, is_rest_of, lemma_be_bytes_len, lemma_be_value_of_bytes, lemma_signed_unsigned,
    signed_value, unsigned_value,
};
use bytes::{Bytes, BytesMut};
use vstd::prelude::*;

verus! {

/// Why a buffer could not be decoded.
#[derive(Debug, Clone, Copy, PartialEq, Eq, Structural)]
pub enum DecodeError {
    /// Fewer bytes are left than the value needs.
    TruncatedInput,
    /// A variable-length integer runs past its byte cap.
    MalformedVarInt,
    /// The bytes are no valid UTF-8, boolean or JSON.
    InvalidEncoding,
    /// A string announces more bytes than its bound allows.
    LengthExceeded { max: usize, received: usize },
    /// The packet id is not the one expected in this phase.
    UnexpectedMessageId,
    /// Inflated data has not the announced length.
    DecompressionSizeMismatch,
}

/// Why a value could not be encoded.
#[derive(Debug, Clone, Copy, PartialEq, Eq, Structural)]
pub enum EncodeError {
    /// The value is longer than its wire form allows.
    ValueTooLarge,
    /// The value could not be turned into JSON text.
    JsonSerializationFailed,
    /// The compressor reported an error.
    CompressionFailed,
}

/// One wire form after another: the bytes of both, or the first error.
pub open spec fn followed_by(
    a: Result<Seq<u8>, EncodeError>,
    b: Result<Seq<u8>, EncodeError>,
) -> Result<Seq<u8>, EncodeError> {
    match a {
        Err(e) => Err(e),
        Ok(x) => match b {
            Err(e) => Err(e),
            Ok(y) => Ok(x + y),
        },
    }
}

/// The sum of two sizes, where both are known.
pub open spec fn sum_of(a: Option<nat>, b: Option<nat>) -> Option<nat> {
    match (a, b) {
        (Some(x), Some(y)) => Some(x + y),
        _ => None,
    }
}

/// A size as a `usize`, where it is known and fits one.
pub open spec fn clipped(size: Option<nat>) -> Option<usize> {
    match size {
        Some(n) => if n <= usize::MAX {
            Some(n as usize)
        } else {
            None
        },
        None => None,
    }
}

/// The sum of two size hints, where both are known and the sum fits.
pub fn add_hints(a: Option<usize>, b: Option<usize>) -> (r: Option<usize>)
    ensures
        r == match (a, b) {
            (Some(x), Some(y)) => if x + y <= usize::MAX {
                Some((x + y) as usize)
            } else {
                None
            },
            _ => None,
        },
        forall|x: Option<nat>, y: Option<nat>|
            a == clipped(x) && b == clipped(y) ==> r == clipped(#[trigger] sum_of(x, y)),
{
    match (a, b) {
        (Some(x), Some(y)) => x.checked_add(y),
        _ => None,
    }
}

/// A type with a wire form.
///
/// The wire form is stated over the type's view: `encoding` is the byte
/// string of a value or the reason it has none, `parse` is the value at the
/// front of a byte string together with the number of bytes it takes up, or
/// the reason there is none.
pub trait Transcodeable: Sized + View {
    spec fn encoding(v: Self::V) -> Result<Seq<u8>, EncodeError>;

    spec fn parse(s: Seq<u8>) -> Result<(Self::V, nat), DecodeError>;

    /// A parse never takes more bytes than there are.
    proof fn lemma_parse_in_bounds(s: Seq<u8>)
        ensures
            Self::parse(s) matches Ok((_, n)) ==> n <= s.len(),
    ;

    /// Appends the wire form of `self` to `buf`. On failure `buf` still
    /// starts with what it held.
    fn encode(&self, buf: &mut BytesMut) -> (r: Result<(), EncodeError>)
        ensures
            match Self::encoding(self@) {
                Ok(w) => r is Ok && bytes_mut_contents(*final(buf)) == bytes_mut_contents(
                    *old(buf),
                ) + w,
                Err(e) => r == Err::<(), EncodeError>(e) && bytes_mut_contents(
                    *old(buf),
                ).is_prefix_of(bytes_mut_contents(*final(buf))),
            },
    ;

    /// Takes one value off the front of `buf`. On failure what is left in
    /// `buf` is a tail of what it held.
    fn decode(buf: &mut Bytes) -> (r: Result<Self, DecodeError>)
        ensures
            match Self::parse(bytes_contents(*old(buf))) {
                Ok((v, n)) => r matches Ok(x) && x@ == v && bytes_contents(*final(buf))
                    == bytes_contents(*old(buf)).skip(n as int),
                Err(e) => r matches Err(x) && x == e && is_rest_of(
                    bytes_contents(*final(buf)),
                    bytes_contents(*old(buf)),
                ),
            },
    ;

    /// The length of the wire form of a value, where it is known without
    /// encoding the value.
    spec fn size(v: Self::V) -> Option<nat>;

    /// A size that is known is the length of the wire form, where there is
    /// one.
    proof fn lemma_size_is_exact(v: Self::V)
        ensures
            Self::size(v) matches Some(n) ==> (Self::encoding(v) matches Ok(w) ==> n == w.len()),
    ;

    /// The size of `self`, where it is known and fits a `usize`.
    fn size_hint(&self) -> (r: Option<usize>)
        ensures
            r == clipped(Self::size(self@)),
    ;
}

/// A message: a wire type with a numeric id.
pub trait Packet: Transcodeable {
    spec fn spec_id() -> i32;

    fn id() -> (id: i32)
        ensures
            id == Self::spec_id(),
    ;

    fn id_self(&self) -> (id: i32)
        ensures
            id == Self::spec_id(),
    {
        Self::id()
    }
}

/// A codec for the element count in front of an array.
pub trait SizeTranscodable {
    spec fn size_encoding(len: nat) -> Result<Seq<u8>, EncodeError>;

    spec fn size_parse(s: Seq<u8>) -> Result<(nat, nat), DecodeError>;

    /// A parse never takes more bytes than there are.
    proof fn lemma_size_parse_in_bounds(s: Seq<u8>)
        ensures
            Self::size_parse(s) matches Ok((_, n)) ==> n <= s.len(),
    ;

    /// Appends the wire form of the count `len` to `buf`. On failure `buf`
    /// still starts with what it held.
    fn encode_usize(len: usize, buf: &mut BytesMut) -> (r: Result<(), EncodeError>)
        ensures
            match Self::size_encoding(len as nat) {
                Ok(w) => r is Ok && bytes_mut_contents(*final(buf)) == bytes_mut_contents(
                    *old(buf),
                ) + w,
                Err(e) => r == Err::<(), EncodeError>(e) && bytes_mut_contents(
                    *old(buf),
                ).is_prefix_of(bytes_mut_contents(*final(buf))),
            },
    ;

    /// Takes a count off the front of `buf`. On failure what is left in
    /// `buf` is a tail of what it held.
    fn decode_usize(buf: &mut Bytes) -> (r: Result<usize, DecodeError>)
        ensures
            match Self::size_parse(bytes_contents(*old(buf))) {
                Ok((v, n)) => r == Ok::<usize, DecodeError>(v as usize) && v <= usize::MAX
                    && bytes_contents(*final(buf)) == bytes_contents(*old(buf)).skip(n as int),
                Err(e) => r == Err::<usize, DecodeError>(e) && is_rest_of(
                    bytes_contents(*final(buf)),
                    bytes_contents(*old(buf)),
                ),
            },
    ;
}

impl Transcodeable for bool {
    open spec fn encoding(v: bool) -> Result<Seq<u8>, EncodeError> {
        Ok(
            seq![if v {
                1u8
            } else {
                0u8
            }],
        )
    }

    open spec fn parse(s: Seq<u8>) -> Result<(bool, nat), DecodeError> {
        if s.len() == 0 {
            Err(DecodeError::TruncatedInput)
        } else if s[0] == 0 {
            Ok((false, 1))
        } else if s[0] == 1 {
            Ok((true, 1))
        } else {
            Err(DecodeError::InvalidEncoding)
        }
    }

    proof fn lemma_parse_in_bounds(s: Seq<u8>) {
    }

    fn encode(&self, buf: &mut BytesMut) -> (r: Result<(), EncodeError>) {
        put_u8(
            buf,
            if *self {
                0x01
            } else {
                0x00
            },
        );
        Ok(())
    }

    /// The one byte is taken whatever it holds.
    fn decode(buf: &mut Bytes) -> (r: Result<Self, DecodeError>)
        ensures
            bytes_contents(*old(buf)).len() > 0 ==> bytes_contents(*final(buf)) == bytes_contents(
                *old(buf),
            ).skip(1),
            bytes_contents(*old(buf)).len() == 0 ==> bytes_contents(*final(buf)) == bytes_contents(
                *old(buf),
            ),
    {
        if remaining(buf) == 0 {
            return Err(DecodeError::TruncatedInput);
        }
        let byte = get_u8(buf);
        if byte == 0 {
            Ok(false)
        } else if byte == 1 {
            Ok(true)
        } else {
            Err(DecodeError::InvalidEncoding)
        }
    }

    open spec fn size(v: bool) -> Option<nat> {
        Some(1)
    }

    proof fn lemma_size_is_exact(v: bool) {
    }

    fn size_hint(&self) -> (r: Option<usize>) {
        Some(1)
    }
}

impl Transcodeable for u8 {
    open spec fn encoding(v: u8) -> Result<Seq<u8>, EncodeError> {
        Ok(seq![v])
    }

    open spec fn parse(s: Seq<u8>) -> Result<(u8, nat), DecodeError> {
        if s.len() < 1 {
            Err(DecodeError::TruncatedInput)
        } else {
            Ok((s[0], 1))
        }
    }

    proof fn lemma_parse_in_bounds(s: Seq<u8>) {
    }

    fn encode(&self, buf: &mut BytesMut) -> (r: Result<(), EncodeError>) {
        put_u8(buf, *self);
        Ok(())
    }

    /// A buffer that is too short is left as it is.
    fn decode(buf: &mut Bytes) -> (r: Result<Self, DecodeError>)
        ensures
            r is Err ==> bytes_contents(*final(buf)) == bytes_contents(*old(buf)),
    {
        if remaining(buf) < 1 {
            return Err(DecodeError::TruncatedInput);
        }
        Ok(get_u8(buf))
    }

    open spec fn size(v: Self) -> Option<nat> {
        Some(1)
    }

    proof fn lemma_size_is_exact(v: Self) {
        lemma_be_bytes_len(v as nat, 1);
    }

    fn size_hint(&self) -> (r: Option<usize>) {
        Some(1)
    }
}

impl Transcodeable for i8 {
    open spec fn encoding(v: i8) -> Result<Seq<u8>, EncodeError> {
        Ok(be_bytes(unsigned_value(v as int, 8), 1))
    }

    open spec fn parse(s: Seq<u8>) -> Result<(i8, nat), DecodeError> {
        if s.len() < 1 {
            Err(DecodeError::TruncatedInput)
        } else {
            Ok((signed_value(s[0] as nat, 8) as i8, 1))
        }
    }

    proof fn lemma_parse_in_bounds(s: Seq<u8>) {
    }

    fn encode(&self, buf: &mut BytesMut) -> (r: Result<(), EncodeError>) {
        put_i8(buf, *self);
        Ok(())
    }

    /// A buffer that is too short is left as it is.
    fn decode(buf: &mut Bytes) -> (r: Result<Self, DecodeError>)
        ensures
            r is Err ==> bytes_contents(*final(buf)) == bytes_contents(*old(buf)),
    {
        if remaining(buf) < 1 {
            return Err(DecodeError::TruncatedInput);
        }
        Ok(get_i8(buf))
    }

    open spec fn size(v: Self) -> Option<nat> {
        Some(1)
    }

    proof fn lemma_size_is_exact(v: Self) {
        lemma_be_bytes_len(unsigned_value(v as int, 8), 1);
    }

    fn size_hint(&self) -> (r: Option<usize>) {
        Some(1)
    }
}

impl Transcodeable for u16 {
    open spec fn encoding(v: u16) -> Result<Seq<u8>, EncodeError> {
        Ok(be_bytes(v as nat, 2))
    }

    open spec fn parse(s: Seq<u8>) -> Result<(u16, nat), DecodeError> {
        if s.len() < 2 {
            Err(DecodeError::TruncatedInput)
        } else {
            Ok((be_value(s.take(2)) as u16, 2))
        }
    }

    proof fn lemma_parse_in_bounds(s: Seq<u8>) {
    }

    fn encode(&self, buf: &mut BytesMut) -> (r: Result<(), EncodeError>) {
        put_u16(buf, *self);
        Ok(())
    }

    /// A buffer that is too short is left as it is.
    fn decode(buf: &mut Bytes) -> (r: Result<Self, DecodeError>)
        ensures
            r is Err ==> bytes_contents(*final(buf)) == bytes_contents(*old(buf)),
    {
        if remaining(buf) < 2 {
            return Err(DecodeError::TruncatedInput);
        }
        Ok(get_u16(buf))
    }

    open spec fn size(v: Self) -> Option<nat> {
        Some(2)
    }

    proof fn lemma_size_is_exact(v: Self) {
        lemma_be_bytes_len(v as nat, 2);
    }

    fn size_hint(&self) -> (r: Option<usize>) {
        Some(2)
    }
}

impl Transcodeable for i16 {
    open spec fn encoding(v: i16) -> Result<Seq<u8>, EncodeError> {
        Ok(be_bytes(unsigned_value(v as int, 16), 2))
    }

    open spec fn parse(s: Seq<u8>) -> Result<(i16, nat), DecodeError> {
        if s.len() < 2 {
            Err(DecodeError::TruncatedInput)
        } else {
            Ok((signed_value(be_value(s.take(2)), 16) as i16, 2))
        }
    }

    proof fn lemma_parse_in_bounds(s: Seq<u8>) {
    }

    fn encode(&self, buf: &mut BytesMut) -> (r: Result<(), EncodeError>) {
        put_i16(buf, *self);
        Ok(())
    }

    /// A buffer that is too short is left as it is.
    fn decode(buf: &mut Bytes) -> (r: Result<Self, DecodeError>)
        ensures
            r is Err ==> bytes_contents(*final(buf)) == bytes_contents(*old(buf)),
    {
        if remaining(buf) < 2 {
            return Err(DecodeError::TruncatedInput);
        }
        Ok(get_i16(buf))
    }

    open spec fn size(v: Self) -> Option<nat> {
        Some(2)
    }

    proof fn lemma_size_is_exact(v: Self) {
        lemma_be_bytes_len(unsigned_value(v as int, 16), 2);
    }

    fn size_hint(&self) -> (r: Option<usize>) {
        Some(2)
    }
}

impl Transcodeable for i32 {
    open spec fn encoding(v: i32) -> Result<Seq<u8>, EncodeError> {
        Ok(be_bytes(unsigned_value(v as int, 32), 4))
    }

    open spec fn parse(s: Seq<u8>) -> Result<(i32, nat), DecodeError> {
        if s.len() < 4 {
            Err(DecodeError::TruncatedInput)
        } else {
            Ok((signed_value(be_value(s.take(4)), 32) as i32, 4))
        }
    }

    proof fn lemma_parse_in_bounds(s: Seq<u8>) {
    }

    fn encode(&self, buf: &mut BytesMut) -> (r: Result<(), EncodeError>) {
        put_i32(buf, *self);
        Ok(())
    }

    /// A buffer that is too short is left as it is.
    fn decode(buf: &mut Bytes) -> (r: Result<Self, DecodeError>)
        ensures
            r is Err ==> bytes_contents(*final(buf)) == bytes_contents(*old(buf)),
    {
        if remaining(buf) < 4 {
            return Err(DecodeError::TruncatedInput);
        }
        Ok(get_i32(buf))
    }

    open spec fn size(v: Self) -> Option<nat> {
        Some(4)
    }

    proof fn lemma_size_is_exact(v: Self) {
        lemma_be_bytes_len(unsigned_value(v as int, 32), 4);
    }

    fn size_hint(&self) -> (r: Option<usize>) {
        Some(4)
    }
}

impl Transcodeable for i64 {
    open spec fn encoding(v: i64) -> Result<Seq<u8>, EncodeError> {
        Ok(be_bytes(unsigned_value(v as int, 64), 8))
    }

    open spec fn parse(s: Seq<u8>) -> Result<(i64, nat), DecodeError> {
        if s.len() < 8 {
            Err(DecodeError::TruncatedInput)
        } else {
            Ok((signed_value(be_value(s.take(8)), 64) as i64, 8))
        }
    }

    proof fn lemma_parse_in_bounds(s: Seq<u8>) {
    }

    fn encode(&self, buf: &mut BytesMut) -> (r: Result<(), EncodeError>) {
        put_i64(buf, *self);
        Ok(())
    }

    /// A buffer that is too short is left as it is.
    fn decode(buf: &mut Bytes) -> (r: Result<Self, DecodeError>)
        ensures
            r is Err ==> bytes_contents(*final(buf)) == bytes_contents(*old(buf)),
    {
        if remaining(buf) < 8 {
            return Err(DecodeError::TruncatedInput);
        }
        Ok(get_i64(buf))
    }

    open spec fn size(v: Self) -> Option<nat> {
        Some(8)
    }

    proof fn lemma_size_is_exact(v: Self) {
        lemma_be_bytes_len(unsigned_value(v as int, 64), 8);
    }

    fn size_hint(&self) -> (r: Option<usize>) {
        Some(8)
    }
}

impl Transcodeable for u128 {
    open spec fn encoding(v: u128) -> Result<Seq<u8>, EncodeError> {
        Ok(be_bytes(v as nat, 16))
    }

    open spec fn parse(s: Seq<u8>) -> Result<(u128, nat), DecodeError> {
        if s.len() < 16 {
            Err(DecodeError::TruncatedInput)
        } else {
            Ok((be_value(s.take(16)) as u128, 16))
        }
    }

    proof fn lemma_parse_in_bounds(s: Seq<u8>) {
    }

    fn encode(&self, buf: &mut BytesMut) -> (r: Result<(), EncodeError>) {
        put_u128(buf, *self);
        Ok(())
    }

    /// A buffer that is too short is left as it is.
    fn decode(buf: &mut Bytes) -> (r: Result<Self, DecodeError>)
        ensures
            r is Err ==> bytes_contents(*final(buf)) == bytes_contents(*old(buf)),
    {
        if remaining(buf) < 16 {
            return Err(DecodeError::TruncatedInput);
        }
        Ok(get_u128(buf))
    }

    open spec fn size(v: Self) -> Option<nat> {
        Some(16)
    }

    proof fn lemma_size_is_exact(v: Self) {
        lemma_be_bytes_len(v as nat, 16);
    }

    fn size_hint(&self) -> (r: Option<usize>) {
        Some(16)
    }
}

/// A `bool` read back from its own wire form is itself, whatever follows it
/// on the wire.
pub proof fn lemma_bool_round_trip(v: bool, rest: Seq<u8>)
    ensures
        bool::encoding(v) matches Ok(w) && bool::parse(w + rest) == Ok::<(bool, nat), DecodeError>(
            (v, w.len()),
        ),
{
}

/// An `u8` read back from its own wire form is itself, whatever follows it
/// on the wire.
pub proof fn lemma_u8_round_trip(v: u8, rest: Seq<u8>)
    ensures
        u8::encoding(v) matches Ok(w) && u8::parse(w + rest) == Ok::<(u8, nat), DecodeError>(
            (v, w.len()),
        ),
{
    assert((seq![v] + rest)[0] == v);
}

/// An `i8` read back from its own wire form is itself, whatever follows it
/// on the wire.
pub proof fn lemma_i8_round_trip(v: i8, rest: Seq<u8>)
    ensures
        i8::encoding(v) matches Ok(w) && i8::parse(w + rest) == Ok::<(i8, nat), DecodeError>(
            (v, w.len()),
        ),
{
    let n = unsigned_value(v as int, 8);
    lemma_signed_unsigned(v as int, 0, 8);
    let w = be_bytes(n, 1);
    lemma_be_bytes_len(n, 1);
    lemma_be_value_of_bytes(n, 1);
    assert(w.drop_last() =~= Seq::<u8>::empty());
    assert(be_value(w) == w[0]) by {
        reveal_with_fuel(be_value, 2);
    }
    assert((w + rest)[0] == w[0]);
}

/// An `u16` read back from its own wire form is itself, whatever follows it
/// on the wire.
pub proof fn lemma_u16_round_trip(v: u16, rest: Seq<u8>)
    ensures
        u16::encoding(v) matches Ok(w) && u16::parse(w + rest) == Ok::<(u16, nat), DecodeError>(
            (v, w.len()),
        ),
{
    let w = be_bytes(v as nat, 2);
    lemma_signed_unsigned(0, 0, 8);
    crate::wire::lemma_be_limits();
    lemma_be_bytes_len(v as nat, 2);
    lemma_be_value_of_bytes(v as nat, 2);
    assert((w + rest).take(2) =~= w);
}

/// An `i16` read back from its own wire form is itself, whatever follows it
/// on the wire.
pub proof fn lemma_i16_round_trip(v: i16, rest: Seq<u8>)
    ensures
        i16::encoding(v) matches Ok(w) && i16::parse(w + rest) == Ok::<(i16, nat), DecodeError>(
            (v, w.len()),
        ),
{
    let n = unsigned_value(v as int, 16);
    lemma_signed_unsigned(v as int, 0, 16);
    let w = be_bytes(n, 2);
    lemma_be_bytes_len(n, 2);
    lemma_be_value_of_bytes(n, 2);
    assert((w + rest).take(2) =~= w);
    assert((w + rest)[0] == w[0]);
}

/// An `i32` read back from its own wire form is itself, whatever follows it
/// on the wire.
pub proof fn lemma_i32_round_trip(v: i32, rest: Seq<u8>)
    ensures
        i32::encoding(v) matches Ok(w) && i32::parse(w + rest) == Ok::<(i32, nat), DecodeError>(
            (v, w.len()),
        ),
{
    let n = unsigned_value(v as int, 32);
    lemma_signed_unsigned(v as int, 0, 32);
    let w = be_bytes(n, 4);
    lemma_be_bytes_len(n, 4);
    lemma_be_value_of_bytes(n, 4);
    assert((w + rest).take(4) =~= w);
    assert((w + rest)[0] == w[0]);
}

/// An `i64` read back from its own wire form is itself, whatever follows it
/// on the wire.
pub proof fn lemma_i64_round_trip(v: i64, rest: Seq<u8>)
    ensures
        i64::encoding(v) matches Ok(w) && i64::parse(w + rest) == Ok::<(i64, nat), DecodeError>(
            (v, w.len()),
        ),
{
    let n = unsigned_value(v as int, 64);
    lemma_signed_unsigned(v as int, 0, 64);
    let w = be_bytes(n, 8);
    lemma_be_bytes_len(n, 8);
    lemma_be_value_of_bytes(n, 8);
    assert((w + rest).take(8) =~= w);
    assert((w + rest)[0] == w[0]);
}

/// An `u128` read back from its own wire form is itself, whatever follows it
/// on the wire.
pub proof fn lemma_u128_round_trip(v: u128, rest: Seq<u8>)
    ensures
        u128::encoding(v) matches Ok(w) && u128::parse(w + rest) == Ok::<(u128, nat), DecodeError>(
            (v, w.len()),
        ),
{
    let w = be_bytes(v as nat, 16);
    lemma_signed_unsigned(0, 0, 8);
    crate::wire::lemma_be_limits();
    lemma_be_bytes_len(v as nat, 16);
    lemma_be_value_of_bytes(v as nat, 16);
    assert((w + rest).take(16) =~= w);
}

} // verus!
