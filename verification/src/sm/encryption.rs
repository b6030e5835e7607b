//! The cipher that a connection runs its bytes through.
use crate::buffer::bytes_contents;
use bytes::Bytes;
use vstd::prelude::*;

verus! {

/// A cipher over whole buffers.
///
/// Nothing has to be known of a cipher: the state machine takes whatever
/// `decrypt` hands back as the plain frame. A cipher that wants contracts to
/// follow it through says what it makes of a buffer, in the state it is in,
/// by `encrypts_to` and `decrypts_to`; one that leaves them alone says
/// nothing and promises nothing.
pub trait Encryption {
    /// What `encrypt` returns for `input`, where the cipher states it.
    open spec fn encrypts_to(&self, input: Seq<u8>) -> Option<Seq<u8>> {
        None
    }

    /// What `decrypt` returns for `input`, where the cipher states it.
    open spec fn decrypts_to(&self, input: Seq<u8>) -> Option<Seq<u8>> {
        None
    }

    fn encrypt(&mut self, input: Bytes) -> (out: Bytes)
        ensures
            old(self).encrypts_to(bytes_contents(input)) matches Some(sealed) ==> bytes_contents(
                out,
            ) == sealed,
    ;

    fn decrypt(&mut self, input: Bytes) -> (out: Bytes)
        ensures
            old(self).decrypts_to(bytes_contents(input)) matches Some(plain) ==> bytes_contents(
                out,
            ) == plain,
    ;
}

/// The cipher that changes nothing.
#[derive(Clone, Copy, Debug, Default)]
pub struct PassTrough;

impl Encryption for PassTrough {
    open spec fn encrypts_to(&self, input: Seq<u8>) -> Option<Seq<u8>> {
        Some(input)
    }

    open spec fn decrypts_to(&self, input: Seq<u8>) -> Option<Seq<u8>> {
        Some(input)
    }

    fn encrypt(&mut self, input: Bytes) -> (out: Bytes)
        ensures
            out == input,
    {
        input
    }

    fn decrypt(&mut self, input: Bytes) -> (out: Bytes)
        ensures
            out == input,
    {
        input
    }
}

} // verus!
