//! Strings with a bound on their length: a `VarInt` byte count, then UTF-8.
use crate::buffer::{advance, bytes_contents, bytes_mut_contents, chunk, put_slice, remaining};
use crate::codec::{DecodeError, EncodeError, Transcodeable};
use crate::types::varint::{
    leb128, leb128_len, lemma_leb128_len_bounds, lemma_leb128_parse_in_bounds,
    lemma_varint_round_trip, VarInt,
};
use bytes::{Bytes, BytesMut};
use vstd::prelude::*;
use vstd::slice::{slice_subrange, slice_to_vec};
use vstd::string::StrSliceExecFns;
use vstd::utf8::{decode_utf8, encode_scalar, encode_utf8, valid_utf8};

verus! {

/// The bound of an ordinary string.
pub const MAX_CHARS_STR: usize = 0x7FFF;

/// The bound of a chat message.
pub const MAX_CHARS_CHAT: usize = 0x40000;

/// The bound of an identifier.
pub const MAX_CHARS_IDENT: usize = 0x7FFF;

pub type MaxString = StringN<MAX_CHARS_STR>;

pub type Identifier = StringN<MAX_CHARS_IDENT>;

/// A string of at most `N` characters.
///
/// The two directions check the bound differently, and this is kept as it
/// is: encoding counts characters, decoding compares the announced number of
/// bytes. A string of `N` characters that are not all ASCII is sent and then
/// refused by a peer with the same bound.
#[derive(Clone, Debug, PartialEq, Eq)]
pub struct StringN<const N: usize>(pub String);

impl<const N: usize> View for StringN<N> {
    type V = Seq<char>;

    open spec fn view(&self) -> Seq<char> {
        self.0@
    }
}

/// `String::from_utf8`: the string that the bytes spell, if they are valid
/// UTF-8, and nothing otherwise.
#[verifier::external_body]
fn string_from_utf8(data: Vec<u8>) -> (r: Option<String>)
    ensures
        r is Some <==> valid_utf8(data@),
        r matches Some(s) ==> s@ == decode_utf8(data@),
{
    String::from_utf8(data).ok()
}

/// No character takes more than four bytes.
pub proof fn lemma_utf8_len(chars: Seq<char>)
    ensures
        encode_utf8(chars).len() <= 4 * chars.len(),
    decreases chars.len(),
{
    if chars.len() > 0 {
        lemma_utf8_len(chars.drop_first());
        assert(encode_scalar(chars[0] as u32).len() <= 4);
    }
}

/// Appends `text` to `buf` as a string of at most `N` characters. On failure
/// `buf` is as it was.
pub fn encode_text<const N: usize>(text: &str, buf: &mut BytesMut) -> (r: Result<(), EncodeError>)
    ensures
        match StringN::<N>::encoding(text@) {
            Ok(w) => r is Ok && bytes_mut_contents(*final(buf)) == bytes_mut_contents(*old(buf))
                + w,
            Err(e) => r == Err::<(), EncodeError>(e) && bytes_mut_contents(*final(buf))
                == bytes_mut_contents(*old(buf)),
        },
{
    let raw = text.as_bytes();
    let len = raw.len();
    proof {
        lemma_utf8_len(text@);
    }
    let over = match N.checked_mul(4) {
        Some(bound) => len > bound,
        None => false,
    };
    if over || len > i32::MAX as usize || text.unicode_len() > N {
        return Err(EncodeError::ValueTooLarge);
    }
    let ghost before = bytes_mut_contents(*buf);
    VarInt(len as i32).encode(buf)?;
    put_slice(buf, raw);
    assert(bytes_mut_contents(*buf) =~= before + (leb128(len as nat) + encode_utf8(text@)));
    Ok(())
}

impl<const N: usize> Transcodeable for StringN<N> {
    /// The byte count as a `VarInt`, then the bytes. A string of more than
    /// `N` characters, or of more bytes than a `VarInt` can announce, has no
    /// wire form.
    open spec fn encoding(v: Seq<char>) -> Result<Seq<u8>, EncodeError> {
        let bytes = encode_utf8(v);
        if v.len() > N || bytes.len() > i32::MAX {
            Err(EncodeError::ValueTooLarge)
        } else {
            Ok(leb128(bytes.len()) + bytes)
        }
    }

    /// A `VarInt` byte count, which is held against `N` before anything else
    /// is looked at, then that many bytes of valid UTF-8.
    open spec fn parse(s: Seq<u8>) -> Result<(Seq<char>, nat), DecodeError> {
        match VarInt::parse(s) {
            Err(e) => Err(e),
            Ok((len, n)) => {
                if len < 0 || len > N {
                    Err(DecodeError::LengthExceeded { max: N, received: len as usize })
                } else if s.len() - n < len {
                    Err(DecodeError::TruncatedInput)
                } else {
                    let data = s.subrange(n as int, n + len);
                    if valid_utf8(data) {
                        Ok((decode_utf8(data), (n + len) as nat))
                    } else {
                        Err(DecodeError::InvalidEncoding)
                    }
                }
            },
        }
    }

    proof fn lemma_parse_in_bounds(s: Seq<u8>) {
        lemma_leb128_parse_in_bounds(s, 5);
    }

    /// A string that is refused leaves `buf` as it is: neither the count nor
    /// a byte of the text is written.
    fn encode(&self, buf: &mut BytesMut) -> (r: Result<(), EncodeError>)
        ensures
            r is Err ==> bytes_mut_contents(*final(buf)) == bytes_mut_contents(*old(buf)),
    {
        encode_text::<N>(self.0.as_str(), buf)
    }

    fn decode(buf: &mut Bytes) -> (r: Result<Self, DecodeError>) {
        let ghost all = bytes_contents(*buf);
        proof {
            lemma_leb128_parse_in_bounds(all, 5);
        }
        let v = VarInt::decode(buf)?;
        let ghost n = VarInt::parse(all).unwrap().1;
        if v.0 < 0 {
            return Err(DecodeError::LengthExceeded { max: N, received: v.0 as usize });
        }
        let len = v.0 as usize;
        if len > N {
            return Err(DecodeError::LengthExceeded { max: N, received: len });
        }
        if remaining(buf) < len {
            return Err(DecodeError::TruncatedInput);
        }
        let data = slice_to_vec(slice_subrange(chunk(buf), 0, len));
        advance(buf, len);
        assert(data@ =~= all.subrange(n as int, n + len));
        assert(bytes_contents(*buf) =~= all.skip(n + len));
        match string_from_utf8(data) {
            Some(text) => Ok(StringN(text)),
            None => Err(DecodeError::InvalidEncoding),
        }
    }

    /// The bytes of the count and of the text, for a text whose bytes a
    /// `VarInt` can count.
    open spec fn size(v: Seq<char>) -> Option<nat> {
        let len = encode_utf8(v).len();
        if len <= i32::MAX {
            Some(leb128_len(len) + len)
        } else {
            None
        }
    }

    proof fn lemma_size_is_exact(v: Seq<char>) {
        lemma_leb128_len_bounds(encode_utf8(v).len());
    }

    fn size_hint(&self) -> (r: Option<usize>) {
        let len = self.0.as_str().as_bytes().len();
        if len > i32::MAX as usize {
            return None;
        }
        proof {
            lemma_leb128_len_bounds(len as nat);
        }
        match VarInt(len as i32).size_hint() {
            Some(head) => Some(head + len),
            None => None,
        }
    }
}

/// What the bound means on each side. A string of at most `N` characters
/// is sent, unless a `VarInt` cannot announce its bytes, which cannot
/// happen where `4 * N` fits one; a string of more than `N` characters is
/// refused. A buffer that announces more than `N` bytes is refused with
/// both numbers, whatever follows.
pub proof fn lemma_string_bound<const N: usize>(v: Seq<char>, s: Seq<u8>)
    ensures
        v.len() <= N && 4 * N <= i32::MAX ==> StringN::<N>::encoding(v) is Ok,
        v.len() <= N && encode_utf8(v).len() <= i32::MAX ==> StringN::<N>::encoding(v) is Ok,
        v.len() > N ==> StringN::<N>::encoding(v) == Err::<Seq<u8>, EncodeError>(
            EncodeError::ValueTooLarge,
        ),
        VarInt::parse(s) matches Ok((len, _)) ==> (len > N ==> StringN::<N>::parse(s) == Err::<
            (Seq<char>, nat),
            DecodeError,
        >(DecodeError::LengthExceeded { max: N, received: len as usize })),
{
    lemma_utf8_len(v);
}

/// A string read back from its own wire form is itself, whatever follows it
/// on the wire, where the reading side admits it: where not only its
/// characters but also its bytes are at most `N`.
pub proof fn lemma_string_round_trip<const N: usize>(v: Seq<char>, rest: Seq<u8>)
    requires
        v.len() <= N,
        encode_utf8(v).len() <= N,
        encode_utf8(v).len() <= i32::MAX,
    ensures
        StringN::<N>::encoding(v) matches Ok(w) && StringN::<N>::parse(w + rest) == Ok::<
            (Seq<char>, nat),
            DecodeError,
        >((v, w.len())),
{
    let bytes = encode_utf8(v);
    let len = bytes.len();
    let w = leb128(len) + bytes;
    lemma_varint_round_trip(len as i32, bytes + rest);
    lemma_leb128_len_bounds(len);
    let n = leb128_len(len);
    assert(w + rest =~= leb128(len) + (bytes + rest));
    assert((w + rest).subrange(n as int, (n + len) as int) =~= bytes);
    vstd::utf8::encode_utf8_valid_utf8(v);
    vstd::utf8::encode_utf8_decode_utf8(v);
}

} // verus!
