//! The compression envelope: the uncompressed length, then that data as a
//! zlib stream, framed by the length of both.
use crate::buffer::{
    bytes_contents, bytes_from_vec, bytes_mut_contents, chunk, freeze, put_slice, remaining,
    split_to, with_room_for,
};
use crate::codec::{DecodeError, EncodeError, Transcodeable};
use crate::packets::{parse_header, parse_pair, read_pair};
use crate::types::varint::{
    leb128, leb128_len, lemma_leb128_len_bounds, lemma_leb128_round_trip, VarInt,
};
use crate::wire::{is_rest_of, lemma_i32_pattern};
use bytes::Bytes;
use std::io::Read;
use vstd::arithmetic::power2::lemma2_to64;
use vstd::prelude::*;

verus! {

/// The zlib level used where the configuration names none, or none that is
/// valid.
pub const DEFAULT_COMPRESSION_LEVEL: u32 = 4;

/// The zlib stream that `flate2` makes of `data` at `level`, or nothing
/// where its encoder reports an error.
pub uninterp spec fn zlib_deflated(data: Seq<u8>, level: u32) -> Option<Seq<u8>>;

/// The data that the zlib stream at the front of `data` holds, if `flate2`
/// can inflate it.
pub uninterp spec fn zlib_inflated(data: Seq<u8>) -> Option<Seq<u8>>;

/// `flate2::bufread::ZlibEncoder` read to its end. What comes back, a
/// stream or the encoder's error, is a matter of `data` and `level` alone:
/// it is what `zlib_deflated` names. A stream that comes back inflates to
/// `data`. That the encoder succeeds is not claimed.
#[verifier::external_body]
fn zlib_deflate(data: &[u8], level: u32) -> (r: Option<Vec<u8>>)
    requires
        level <= 9,
    ensures
        match zlib_deflated(data@, level) {
            Some(stream) => r matches Some(out) && out@ == stream && zlib_inflated(stream) == Some(
                data@,
            ),
            None => r is None,
        },
{
    let mut out = Vec::with_capacity(data.len());
    let mut zlib = flate2::bufread::ZlibEncoder::new(data, flate2::Compression::new(level));
    match zlib.read_to_end(&mut out) {
        Ok(_) => Some(out),
        Err(_) => None,
    }
}

/// `flate2::bufread::ZlibDecoder` read to its end: the data of the zlib
/// stream at the front of `data`, or nothing where the decoder reports an
/// error.
#[verifier::external_body]
fn zlib_inflate(data: &[u8]) -> (r: Option<Vec<u8>>)
    ensures
        r matches Some(out) ==> zlib_inflated(data@) == Some(out@),
        r is None ==> zlib_inflated(data@) is None,
{
    let mut out = Vec::new();
    let mut zlib = flate2::bufread::ZlibDecoder::new(data);
    match zlib.read_to_end(&mut out) {
        Ok(_) => Some(out),
        Err(_) => None,
    }
}

/// Whether every character is a decimal digit.
pub open spec fn all_digits(text: Seq<char>) -> bool {
    forall|i: int| 0 <= i < text.len() ==> '0' <= #[trigger] text[i] <= '9'
}

/// The number that decimal digits spell.
pub open spec fn digits_value(text: Seq<char>) -> nat
    decreases text.len(),
{
    if text.len() == 0 {
        0
    } else {
        10 * digits_value(text.drop_last()) + (text.last() as nat - '0' as nat) as nat
    }
}

/// The number that `text` spells for `u32`: an optional `+`, then one or
/// more decimal digits and nothing else, with a value that fits.
pub open spec fn decimal_u32(text: Seq<char>) -> Option<u32> {
    let digits = if text.len() > 0 && text[0] == '+' {
        text.skip(1)
    } else {
        text
    };
    if digits.len() > 0 && all_digits(digits) && digits_value(digits) <= u32::MAX {
        Some(digits_value(digits) as u32)
    } else {
        None
    }
}

/// `str::parse::<u32>`: the number that the text spells, if it spells one.
#[verifier::external_body]
fn parse_u32(text: &str) -> (r: Option<u32>)
    ensures
        r == decimal_u32(text@),
{
    text.parse::<u32>().ok()
}

/// The level that a parsed setting selects: itself from 0 to 9, the default
/// otherwise.
pub open spec fn level_of(parsed: Option<u32>) -> u32 {
    match parsed {
        Some(v) => if v <= 9 {
            v
        } else {
            DEFAULT_COMPRESSION_LEVEL
        },
        None => DEFAULT_COMPRESSION_LEVEL,
    }
}

/// The level that a setting names: the number it spells, from 0 to 9.
pub open spec fn named_level_of(text: Seq<char>) -> Option<u32> {
    match decimal_u32(text) {
        Some(v) => if v <= 9 {
            Some(v)
        } else {
            None
        },
        None => None,
    }
}

/// The zlib level that a setting names, or nothing where it names none: where
/// it is no number or is above 9.
pub fn named_level(setting: &str) -> (level: Option<u32>)
    ensures
        level == named_level_of(setting@),
        level matches Some(v) ==> v <= 9,
{
    match parse_u32(setting) {
        Some(v) => if v <= 9 {
            Some(v)
        } else {
            None
        },
        None => None,
    }
}

/// The zlib level that a configuration setting selects. A setting that is
/// missing, is no number or is above 9 selects the default.
pub fn compression_level(setting: Option<&str>) -> (level: u32)
    ensures
        level == level_of(
            match setting {
                Some(text) => decimal_u32(text@),
                None => None,
            },
        ),
        level <= 9,
{
    let named = match setting {
        Some(text) => named_level(text),
        None => None,
    };
    match named {
        Some(level) => level,
        None => DEFAULT_COMPRESSION_LEVEL,
    }
}

/// The envelope around a zlib stream: the length of what follows, the
/// announced length of the data, the stream.
pub open spec fn envelope(declared: nat, stream: Seq<u8>) -> Seq<u8> {
    leb128(leb128_len(declared) + stream.len()) + leb128(declared) + stream
}

/// The compressed frame of a payload of `payload_len` bytes with the zlib
/// stream `stream`. Lengths that do not fit a `VarInt` cannot be sent.
pub open spec fn compressed_frame(payload_len: nat, stream: Seq<u8>) -> Result<
    Seq<u8>,
    EncodeError,
> {
    if payload_len > i32::MAX || leb128_len(payload_len) + stream.len() > i32::MAX {
        Err(EncodeError::ValueTooLarge)
    } else {
        Ok(envelope(payload_len, stream))
    }
}

/// The payload of the compressed frame at the front of `s`. The frame
/// length counts the bytes of the announced length and the zlib stream; the
/// stream must inflate to exactly the announced number of bytes.
pub open spec fn parse_compressed(s: Seq<u8>) -> Result<Seq<u8>, DecodeError> {
    match parse_pair(s) {
        Err(e) => Err(e),
        Ok((len, declared, n1, n2)) => {
            if len < n2 || s.len() - n1 - n2 < len - n2 {
                Err(DecodeError::TruncatedInput)
            } else {
                match zlib_inflated(s.subrange((n1 + n2) as int, n1 + len)) {
                    None => Err(DecodeError::InvalidEncoding),
                    Some(out) => if out.len() == declared {
                        Ok(out)
                    } else {
                        Err(DecodeError::DecompressionSizeMismatch)
                    },
                }
            }
        },
    }
}

/// What `parse_compressed` makes of an envelope: it finds the stream and
/// holds what it inflates to against the announced length.
pub proof fn lemma_envelope_parse(declared: nat, stream: Seq<u8>)
    requires
        declared <= i32::MAX,
        leb128_len(declared) + stream.len() <= i32::MAX,
    ensures
        parse_compressed(envelope(declared, stream)) == match zlib_inflated(stream) {
            None => Err::<Seq<u8>, DecodeError>(DecodeError::InvalidEncoding),
            Some(out) => if out.len() == declared {
                Ok(out)
            } else {
                Err(DecodeError::DecompressionSizeMismatch)
            },
        },
{
    let s = envelope(declared, stream);
    let total = leb128_len(declared) + stream.len();
    lemma2_to64();
    lemma_leb128_len_bounds(total);
    lemma_leb128_len_bounds(declared);
    lemma_i32_pattern(total as i32, 0);
    lemma_i32_pattern(declared as i32, 0);
    assert(s =~= leb128(total) + (leb128(declared) + stream));
    lemma_leb128_round_trip(total, leb128(declared) + stream, 5);
    let n1 = leb128_len(total);
    assert(s.skip(n1 as int) =~= leb128(declared) + stream);
    lemma_leb128_round_trip(declared, stream, 5);
    let n2 = leb128_len(declared);
    assert(VarInt::parse(s) == Ok::<(i32, nat), DecodeError>((total as i32, n1)));
    assert(VarInt::parse(s.skip(n1 as int)) == Ok::<(i32, nat), DecodeError>(
        (declared as i32, n2),
    ));
    assert(s.subrange((n1 + n2) as int, (n1 + total) as int) =~= stream);
}

/// A payload that was compressed comes back unchanged: the compressed frame
/// of a payload, around a zlib stream that inflates to it, parses to it.
pub proof fn lemma_compression_round_trip(payload: Seq<u8>, stream: Seq<u8>)
    requires
        zlib_inflated(stream) == Some(payload),
        compressed_frame(payload.len(), stream) is Ok,
    ensures
        parse_compressed(compressed_frame(payload.len(), stream).unwrap()) == Ok::<
            Seq<u8>,
            DecodeError,
        >(payload),
{
    lemma_envelope_parse(payload.len(), stream);
}

/// An envelope that announces another length than its stream inflates to is
/// refused with `DecompressionSizeMismatch`.
pub proof fn lemma_wrong_length_is_refused(declared: nat, payload: Seq<u8>, stream: Seq<u8>)
    requires
        zlib_inflated(stream) == Some(payload),
        declared != payload.len(),
        declared <= i32::MAX,
        leb128_len(declared) + stream.len() <= i32::MAX,
    ensures
        parse_compressed(envelope(declared, stream)) == Err::<Seq<u8>, DecodeError>(
            DecodeError::DecompressionSizeMismatch,
        ),
{
    lemma_envelope_parse(declared, stream);
}

/// Builds the compressed frame of a payload of `payload_len` bytes from what
/// the compressor made of it.
pub fn wrap_compressed(payload_len: usize, deflated: Option<Vec<u8>>) -> (r: Result<
    Bytes,
    EncodeError,
>)
    ensures
        match deflated {
            None => r matches Err(e) && e == EncodeError::CompressionFailed,
            Some(stream) => match compressed_frame(payload_len as nat, stream@) {
                Ok(frame) => r matches Ok(b) && bytes_contents(b) == frame,
                Err(e) => r matches Err(x) && x == e,
            },
        },
{
    let stream = match deflated {
        Some(stream) => stream,
        None => {
            return Err(EncodeError::CompressionFailed);
        },
    };
    if payload_len > i32::MAX as usize {
        return Err(EncodeError::ValueTooLarge);
    }
    let declared = VarInt(payload_len as i32);
    let declared_size = match declared.size_hint() {
        Some(n) => n,
        None => 5,
    };
    proof {
        lemma_leb128_len_bounds(payload_len as nat);
    }
    if stream.len() > i32::MAX as usize - declared_size {
        return Err(EncodeError::ValueTooLarge);
    }
    let len = VarInt((stream.len() + declared_size) as i32);
    let mut buf = with_room_for(stream.len() + declared_size + 5);
    len.encode(&mut buf)?;
    declared.encode(&mut buf)?;
    put_slice(&mut buf, stream.as_slice());
    assert(bytes_mut_contents(buf) =~= envelope(payload_len as nat, stream@));
    Ok(freeze(buf))
}

/// What compressing `data` at `level` gives: the compressed frame around
/// the zlib stream of `data`. Data of more bytes than a `VarInt` can
/// announce is refused before it is compressed; an error of the compressor
/// is `CompressionFailed`.
pub open spec fn compression(data: Seq<u8>, level: u32) -> Result<Seq<u8>, EncodeError> {
    if data.len() > i32::MAX {
        Err(EncodeError::ValueTooLarge)
    } else {
        match zlib_deflated(data, level) {
            None => Err(EncodeError::CompressionFailed),
            Some(stream) => compressed_frame(data.len(), stream),
        }
    }
}

/// Compresses `data` at `level` and builds the compressed frame around it:
/// the length of what follows, the length of `data`, the zlib stream. The
/// frame decompresses to `data`.
pub fn compress(data: Bytes, level: u32) -> (r: Result<Bytes, EncodeError>)
    requires
        level <= 9,
    ensures
        match compression(bytes_contents(data), level) {
            Ok(frame) => r matches Ok(b) && bytes_contents(b) == frame && parse_compressed(frame)
                == Ok::<Seq<u8>, DecodeError>(bytes_contents(data)),
            Err(e) => r matches Err(x) && x == e,
        },
{
    let payload_len = remaining(&data);
    if payload_len > i32::MAX as usize {
        return Err(EncodeError::ValueTooLarge);
    }
    let deflated = zlib_deflate(chunk(&data), level);
    proof {
        if deflated is Some {
            let stream = deflated.unwrap()@;
            if compressed_frame(payload_len as nat, stream) is Ok {
                lemma_compression_round_trip(bytes_contents(data), stream);
            }
        }
    }
    wrap_compressed(payload_len, deflated)
}

/// The payload that inflated data makes, held against the announced length.
pub fn check_inflated(declared: i32, inflated: Option<Vec<u8>>) -> (r: Result<Bytes, DecodeError>)
    ensures
        match inflated {
            None => r matches Err(e) && e == DecodeError::InvalidEncoding,
            Some(out) => if out@.len() == declared {
                r matches Ok(b) && bytes_contents(b) == out@
            } else {
                r matches Err(e) && e == DecodeError::DecompressionSizeMismatch
            },
        },
{
    match inflated {
        None => Err(DecodeError::InvalidEncoding),
        Some(out) => {
            if declared < 0 || out.len() != declared as usize {
                Err(DecodeError::DecompressionSizeMismatch)
            } else {
                Ok(bytes_from_vec(out))
            }
        },
    }
}

/// Opens the compressed frame at the front of `data` and inflates its
/// payload.
pub fn decompess(data: Bytes) -> (r: Result<Bytes, DecodeError>)
    ensures
        match parse_compressed(bytes_contents(data)) {
            Ok(payload) => r matches Ok(b) && bytes_contents(b) == payload,
            Err(e) => r matches Err(x) && x == e,
        },
{
    let mut data = data;
    let ghost s = bytes_contents(data);
    let (len, declared, declared_size) = read_pair(&mut data)?;
    let ghost n1 = parse_pair(s).unwrap().2;
    if len < declared_size as i32 {
        return Err(DecodeError::TruncatedInput);
    }
    let body_len = len as usize - declared_size;
    if remaining(&data) < body_len {
        return Err(DecodeError::TruncatedInput);
    }
    let body = split_to(&mut data, body_len);
    assert(bytes_contents(body) =~= s.subrange((n1 + declared_size) as int, n1 + len));
    let inflated = zlib_inflate(chunk(&body));
    check_inflated(declared, inflated)
}

/// Takes the two numbers in front of a compressed frame off `buf`: the
/// frame length and the announced length of the data, as the machine casts
/// them.
pub fn read_compression_header(buf: &mut Bytes) -> (r: Result<(usize, usize), DecodeError>)
    ensures
        match parse_header(bytes_contents(*old(buf))) {
            Ok((len, declared, h)) => r == Ok::<(usize, usize), DecodeError>(
                (len as usize, declared as usize),
            ) && bytes_contents(*final(buf)) == bytes_contents(*old(buf)).skip(h as int),
            Err(e) => r == Err::<(usize, usize), DecodeError>(e) && is_rest_of(
                bytes_contents(*final(buf)),
                bytes_contents(*old(buf)),
            ),
        },
{
    let raw = read_pair(buf)?;
    Ok((raw.0 as usize, raw.1 as usize))
}

} // verus!
