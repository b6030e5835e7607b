//! JSON documents on the wire: a bounded string that holds JSON text.
//!
//! The library carries the text; turning it into typed values and back is
//! the caller's business. Both directions refuse text that is no JSON.
use crate::buffer::{bytes_contents, bytes_mut_contents};
use crate::codec::{DecodeError, EncodeError, Transcodeable};
use crate::types::string::{encode_text, StringN, MAX_CHARS_STR};
use crate::wire::is_rest_of;
use bytes::{Bytes, BytesMut};
use vstd::prelude::*;

verus! {

/// Whether `text` is a JSON document, as `simd_json` judges it.
pub uninterp spec fn json_well_formed(text: Seq<char>) -> bool;

/// `simd_json::to_tape`, which fails exactly on text that is no JSON: the
/// result says whether it succeeded. The parser works on a copy.
#[verifier::external_body]
fn json_parses(text: &str) -> (ok: bool)
    ensures
        ok == json_well_formed(text@),
{
    let mut raw = text.as_bytes().to_vec();
    simd_json::to_tape(&mut raw).is_ok()
}

/// A JSON document of at most `N` characters.
#[derive(Clone, Debug, PartialEq, Eq)]
pub struct JsonN<const N: usize>(pub String);

/// A borrowed JSON document of at most `N` characters, for sending without
/// a copy.
#[derive(Clone, Copy, Debug)]
pub struct JsonRef<'a, const N: usize>(pub &'a str);

pub type Json = JsonN<MAX_CHARS_STR>;

impl<const N: usize> View for JsonN<N> {
    type V = Seq<char>;

    open spec fn view(&self) -> Seq<char> {
        self.0@
    }
}

/// The wire form of JSON text with the bound `N`: that of the string, for
/// text that is JSON.
pub open spec fn json_encoding<const N: usize>(text: Seq<char>) -> Result<Seq<u8>, EncodeError> {
    if json_well_formed(text) {
        StringN::<N>::encoding(text)
    } else {
        Err(EncodeError::JsonSerializationFailed)
    }
}

/// Appends `text` to `buf` as a string of at most `N` characters, given
/// whether it is JSON. On failure `buf` is as it was.
pub fn encode_json_text<const N: usize>(text: &str, well_formed: bool, buf: &mut BytesMut) -> (r:
    Result<(), EncodeError>)
    ensures
        well_formed ==> match StringN::<N>::encoding(text@) {
            Ok(w) => r is Ok && bytes_mut_contents(*final(buf)) == bytes_mut_contents(*old(buf))
                + w,
            Err(e) => r == Err::<(), EncodeError>(e) && bytes_mut_contents(*final(buf))
                == bytes_mut_contents(*old(buf)),
        },
        !well_formed ==> r == Err::<(), EncodeError>(EncodeError::JsonSerializationFailed)
            && bytes_mut_contents(*final(buf)) == bytes_mut_contents(*old(buf)),
{
    if !well_formed {
        return Err(EncodeError::JsonSerializationFailed);
    }
    encode_text::<N>(text, buf)
}

/// The document that decoded text makes, given whether it is JSON.
pub fn accept_json_text<const N: usize>(text: String, well_formed: bool) -> (r: Result<
    JsonN<N>,
    DecodeError,
>)
    ensures
        well_formed ==> (r matches Ok(doc) && doc@ == text@),
        !well_formed ==> (r matches Err(e) && e == DecodeError::InvalidEncoding),
{
    if well_formed {
        Ok(JsonN(text))
    } else {
        Err(DecodeError::InvalidEncoding)
    }
}

impl<const N: usize> Transcodeable for JsonN<N> {
    open spec fn encoding(v: Seq<char>) -> Result<Seq<u8>, EncodeError> {
        json_encoding::<N>(v)
    }

    /// A string of at most `N` bytes whose text is JSON.
    open spec fn parse(s: Seq<u8>) -> Result<(Seq<char>, nat), DecodeError> {
        match StringN::<N>::parse(s) {
            Err(e) => Err(e),
            Ok((text, n)) => if json_well_formed(text) {
                Ok((text, n))
            } else {
                Err(DecodeError::InvalidEncoding)
            },
        }
    }

    proof fn lemma_parse_in_bounds(s: Seq<u8>) {
        StringN::<N>::lemma_parse_in_bounds(s);
    }

    /// A document that is refused leaves `buf` as it is.
    fn encode(&self, buf: &mut BytesMut) -> (r: Result<(), EncodeError>)
        ensures
            r is Err ==> bytes_mut_contents(*final(buf)) == bytes_mut_contents(*old(buf)),
    {
        let text = self.0.as_str();
        encode_json_text::<N>(text, json_parses(text), buf)
    }

    fn decode(buf: &mut Bytes) -> (r: Result<Self, DecodeError>) {
        let ghost all = bytes_contents(*buf);
        proof {
            StringN::<N>::lemma_parse_in_bounds(all);
        }
        let text = StringN::<N>::decode(buf)?;
        let well_formed = json_parses(text.0.as_str());
        accept_json_text::<N>(text.0, well_formed)
    }

    /// Not known without encoding.
    open spec fn size(v: Seq<char>) -> Option<nat> {
        None
    }

    proof fn lemma_size_is_exact(v: Seq<char>) {
    }

    fn size_hint(&self) -> (r: Option<usize>) {
        None
    }
}

impl<'a, const N: usize> JsonRef<'a, N> {
    /// Appends the document to `buf`, as [`JsonN`] does.
    pub fn encode(&self, buf: &mut BytesMut) -> (r: Result<(), EncodeError>)
        ensures
            match json_encoding::<N>(self.0@) {
                Ok(w) => r is Ok && bytes_mut_contents(*final(buf)) == bytes_mut_contents(
                    *old(buf),
                ) + w,
                Err(e) => r == Err::<(), EncodeError>(e) && bytes_mut_contents(*final(buf))
                    == bytes_mut_contents(*old(buf)),
            },
    {
        encode_json_text::<N>(self.0, json_parses(self.0), buf)
    }

    /// Takes a document off the front of `buf`, as [`JsonN`] does.
    pub fn decode(buf: &mut Bytes) -> (r: Result<JsonN<N>, DecodeError>)
        ensures
            match JsonN::<N>::parse(bytes_contents(*old(buf))) {
                Ok((v, n)) => r matches Ok(x) && x@ == v && bytes_contents(*final(buf))
                    == bytes_contents(*old(buf)).skip(n as int),
                Err(e) => r matches Err(x) && x == e && is_rest_of(
                    bytes_contents(*final(buf)),
                    bytes_contents(*old(buf)),
                ),
            },
    {
        JsonN::<N>::decode(buf)
    }
}

} // verus!
