//! The byte buffers of the `bytes` crate, as the codecs see them.
//!
//! `Bytes` is read from the front, `BytesMut` is appended to at the back.
//! Verus does not look inside either: what a buffer holds is named by
//! [`bytes_contents`] and [`bytes_mut_contents`], and each function below
//! states what the corresponding `bytes` operation does to those contents.
//! None of these statements is proved here.
//!
//! Appending grows a buffer as a `Vec` grows. Running out of address space
//! on the way is outside these contracts, as it is for `Vec` in vstd.
use crate::wire::{be_bytes, be_value, signed_value, unsigned_value};
use bytes::{Buf, BufMut, Bytes, BytesMut};
use vstd::prelude::*;

verus! {

/// `bytes::Bytes`, which Verus does not look into.
#[verifier::external_type_specification]
#[verifier::external_body]
pub struct ExBytes(bytes::Bytes);

/// `bytes::BytesMut`, which Verus does not look into.
#[verifier::external_type_specification]
#[verifier::external_body]
pub struct ExBytesMut(bytes::BytesMut);

/// The bytes that a `Bytes` still holds, front first.
pub uninterp spec fn bytes_contents(b: Bytes) -> Seq<u8>;

/// The bytes that a `BytesMut` holds, front first.
pub uninterp spec fn bytes_mut_contents(b: BytesMut) -> Seq<u8>;

/// `Bytes::from(Vec<u8>)`: the buffer holds exactly the vector's bytes.
#[verifier::external_body]
pub(crate) fn bytes_from_vec(data: Vec<u8>) -> (b: Bytes)
    ensures
        bytes_contents(b) == data@,
{
    Bytes::from(data)
}

/// `Bytes::copy_from_slice`: a buffer of its own that holds the slice's
/// bytes.
#[verifier::external_body]
pub(crate) fn bytes_copy_from_slice(data: &[u8]) -> (b: Bytes)
    ensures
        bytes_contents(b) == data@,
{
    Bytes::copy_from_slice(data)
}

/// `Bytes::clone`: another handle on the same bytes.
#[verifier::external_body]
pub(crate) fn clone_bytes(buf: &Bytes) -> (b: Bytes)
    ensures
        bytes_contents(b) == bytes_contents(*buf),
{
    buf.clone()
}

/// `Buf::remaining` on `Bytes`: the number of bytes left to read.
#[verifier::external_body]
pub(crate) fn remaining(buf: &Bytes) -> (n: usize)
    ensures
        n == bytes_contents(*buf).len(),
{
    buf.remaining()
}

/// `Buf::chunk` on `Bytes`: all the bytes left to read, as one slice.
#[verifier::external_body]
pub(crate) fn chunk(buf: &Bytes) -> (s: &[u8])
    ensures
        s@ == bytes_contents(*buf),
{
    buf.chunk()
}

/// `Buf::advance` on `Bytes`: drops the first `cnt` bytes. It panics when
/// fewer are left.
#[verifier::external_body]
pub(crate) fn advance(buf: &mut Bytes, cnt: usize)
    requires
        cnt <= bytes_contents(*old(buf)).len(),
    ensures
        bytes_contents(*final(buf)) == bytes_contents(*old(buf)).skip(cnt as int),
{
    buf.advance(cnt)
}

/// `Bytes::split_to`: hands out the first `at` bytes and keeps the rest. It
/// panics when fewer are left.
#[verifier::external_body]
pub(crate) fn split_to(buf: &mut Bytes, at: usize) -> (head: Bytes)
    requires
        at <= bytes_contents(*old(buf)).len(),
    ensures
        bytes_contents(head) == bytes_contents(*old(buf)).take(at as int),
        bytes_contents(*final(buf)) == bytes_contents(*old(buf)).skip(at as int),
{
    buf.split_to(at)
}

/// `Buf::get_u8` on `Bytes`: takes the first byte. It panics on an empty
/// buffer.
#[verifier::external_body]
pub(crate) fn get_u8(buf: &mut Bytes) -> (v: u8)
    requires
        1 <= bytes_contents(*old(buf)).len(),
    ensures
        v == bytes_contents(*old(buf))[0],
        bytes_contents(*final(buf)) == bytes_contents(*old(buf)).skip(1),
{
    buf.get_u8()
}

/// `Buf::get_i8` on `Bytes`: takes the first byte, read as two's
/// complement. It panics on an empty buffer.
#[verifier::external_body]
pub(crate) fn get_i8(buf: &mut Bytes) -> (v: i8)
    requires
        1 <= bytes_contents(*old(buf)).len(),
    ensures
        v == signed_value(bytes_contents(*old(buf))[0] as nat, 8),
        bytes_contents(*final(buf)) == bytes_contents(*old(buf)).skip(1),
{
    buf.get_i8()
}

/// `Buf::get_u16` on `Bytes`: takes two bytes as a big-endian number. It
/// panics when fewer are left.
#[verifier::external_body]
pub(crate) fn get_u16(buf: &mut Bytes) -> (v: u16)
    requires
        2 <= bytes_contents(*old(buf)).len(),
    ensures
        v == be_value(bytes_contents(*old(buf)).take(2)),
        bytes_contents(*final(buf)) == bytes_contents(*old(buf)).skip(2),
{
    buf.get_u16()
}

/// `Buf::get_i16` on `Bytes`: takes two bytes as a big-endian two's
/// complement number. It panics when fewer are left.
#[verifier::external_body]
pub(crate) fn get_i16(buf: &mut Bytes) -> (v: i16)
    requires
        2 <= bytes_contents(*old(buf)).len(),
    ensures
        v == signed_value(be_value(bytes_contents(*old(buf)).take(2)), 16),
        bytes_contents(*final(buf)) == bytes_contents(*old(buf)).skip(2),
{
    buf.get_i16()
}

/// `Buf::get_i32` on `Bytes`: takes four bytes as a big-endian two's
/// complement number. It panics when fewer are left.
#[verifier::external_body]
pub(crate) fn get_i32(buf: &mut Bytes) -> (v: i32)
    requires
        4 <= bytes_contents(*old(buf)).len(),
    ensures
        v == signed_value(be_value(bytes_contents(*old(buf)).take(4)), 32),
        bytes_contents(*final(buf)) == bytes_contents(*old(buf)).skip(4),
{
    buf.get_i32()
}

/// `Buf::get_i64` on `Bytes`: takes eight bytes as a big-endian two's
/// complement number. It panics when fewer are left.
#[verifier::external_body]
pub(crate) fn get_i64(buf: &mut Bytes) -> (v: i64)
    requires
        8 <= bytes_contents(*old(buf)).len(),
    ensures
        v == signed_value(be_value(bytes_contents(*old(buf)).take(8)), 64),
        bytes_contents(*final(buf)) == bytes_contents(*old(buf)).skip(8),
{
    buf.get_i64()
}

/// `Buf::get_u128` on `Bytes`: takes sixteen bytes as a big-endian number.
/// It panics when fewer are left.
#[verifier::external_body]
pub(crate) fn get_u128(buf: &mut Bytes) -> (v: u128)
    requires
        16 <= bytes_contents(*old(buf)).len(),
    ensures
        v == be_value(bytes_contents(*old(buf)).take(16)),
        bytes_contents(*final(buf)) == bytes_contents(*old(buf)).skip(16),
{
    buf.get_u128()
}

/// `BytesMut::with_capacity`: an empty buffer. The capacity is a hint to
/// the allocator and shows in no contract; above `isize::MAX` the call
/// panics, so no more than `i32::MAX` is asked for.
#[verifier::external_body]
pub(crate) fn with_capacity(capacity: usize) -> (b: BytesMut)
    requires
        capacity <= i32::MAX,
    ensures
        bytes_mut_contents(b) == Seq::<u8>::empty(),
{
    BytesMut::with_capacity(capacity)
}

/// An empty buffer with room for about `wanted` bytes.
pub(crate) fn with_room_for(wanted: usize) -> (b: BytesMut)
    ensures
        bytes_mut_contents(b) == Seq::<u8>::empty(),
{
    if wanted <= i32::MAX as usize {
        with_capacity(wanted)
    } else {
        with_capacity(i32::MAX as usize)
    }
}

/// `BytesMut::len`: the number of bytes held.
#[verifier::external_body]
pub(crate) fn written(buf: &BytesMut) -> (n: usize)
    ensures
        n == bytes_mut_contents(*buf).len(),
{
    buf.len()
}

/// `Buf::chunk` on `BytesMut`: all the bytes held, as one slice.
#[verifier::external_body]
pub(crate) fn chunk_mut(buf: &BytesMut) -> (s: &[u8])
    ensures
        s@ == bytes_mut_contents(*buf),
{
    buf.chunk()
}

/// `BytesMut::freeze`: the same bytes, now read-only.
#[verifier::external_body]
pub(crate) fn freeze(buf: BytesMut) -> (b: Bytes)
    ensures
        bytes_contents(b) == bytes_mut_contents(buf),
{
    buf.freeze()
}

/// `BytesMut::split_to`: hands out the first `at` bytes and keeps the rest.
/// It panics when fewer are held.
#[verifier::external_body]
pub(crate) fn split_to_mut(buf: &mut BytesMut, at: usize) -> (head: BytesMut)
    requires
        at <= bytes_mut_contents(*old(buf)).len(),
    ensures
        bytes_mut_contents(head) == bytes_mut_contents(*old(buf)).take(at as int),
        bytes_mut_contents(*final(buf)) == bytes_mut_contents(*old(buf)).skip(at as int),
{
    buf.split_to(at)
}

/// `BufMut::put_slice` on `BytesMut`: appends the slice. The buffer grows
/// as needed, like a `Vec`.
#[verifier::external_body]
pub(crate) fn put_slice(buf: &mut BytesMut, src: &[u8])
    ensures
        bytes_mut_contents(*final(buf)) == bytes_mut_contents(*old(buf)) + src@,
{
    buf.put_slice(src)
}

/// `BufMut::put_u8` on `BytesMut`: appends one byte.
#[verifier::external_body]
pub(crate) fn put_u8(buf: &mut BytesMut, n: u8)
    ensures
        bytes_mut_contents(*final(buf)) == bytes_mut_contents(*old(buf)).push(n),
{
    buf.put_u8(n)
}

/// `BufMut::put_i8` on `BytesMut`: appends one byte, the two's complement
/// of `n`.
#[verifier::external_body]
pub(crate) fn put_i8(buf: &mut BytesMut, n: i8)
    ensures
        bytes_mut_contents(*final(buf)) == bytes_mut_contents(*old(buf)) + be_bytes(
            unsigned_value(n as int, 8),
            1,
        ),
{
    buf.put_i8(n)
}

/// `BufMut::put_u16` on `BytesMut`: appends `n` as two big-endian bytes.
#[verifier::external_body]
pub(crate) fn put_u16(buf: &mut BytesMut, n: u16)
    ensures
        bytes_mut_contents(*final(buf)) == bytes_mut_contents(*old(buf)) + be_bytes(n as nat, 2),
{
    buf.put_u16(n)
}

/// `BufMut::put_i16` on `BytesMut`: appends the two's complement of `n` as
/// two big-endian bytes.
#[verifier::external_body]
pub(crate) fn put_i16(buf: &mut BytesMut, n: i16)
    ensures
        bytes_mut_contents(*final(buf)) == bytes_mut_contents(*old(buf)) + be_bytes(
            unsigned_value(n as int, 16),
            2,
        ),
{
    buf.put_i16(n)
}

/// `BufMut::put_i32` on `BytesMut`: appends the two's complement of `n` as
/// four big-endian bytes.
#[verifier::external_body]
pub(crate) fn put_i32(buf: &mut BytesMut, n: i32)
    ensures
        bytes_mut_contents(*final(buf)) == bytes_mut_contents(*old(buf)) + be_bytes(
            unsigned_value(n as int, 32),
            4,
        ),
{
    buf.put_i32(n)
}

/// `BufMut::put_i64` on `BytesMut`: appends the two's complement of `n` as
/// eight big-endian bytes.
#[verifier::external_body]
pub(crate) fn put_i64(buf: &mut BytesMut, n: i64)
    ensures
        bytes_mut_contents(*final(buf)) == bytes_mut_contents(*old(buf)) + be_bytes(
            unsigned_value(n as int, 64),
            8,
        ),
{
    buf.put_i64(n)
}

/// `BufMut::put_u128` on `BytesMut`: appends `n` as sixteen big-endian
/// bytes.
#[verifier::external_body]
pub(crate) fn put_u128(buf: &mut BytesMut, n: u128)
    ensures
        bytes_mut_contents(*final(buf)) == bytes_mut_contents(*old(buf)) + be_bytes(n as nat, 16),
{
    buf.put_u128(n)
}

} // verus!
