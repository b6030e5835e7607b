//! Arrays: an element count in a codec of the caller's choice, then the
//! elements one after the other.
use crate::buffer::{bytes_contents, bytes_mut_contents};
use crate::codec::{DecodeError, EncodeError, SizeTranscodable, Transcodeable};
use bytes::{Bytes, BytesMut};
use std::marker::PhantomData;
use vstd::prelude::*;

verus! {

/// A sequence of `T` whose count is sent as an `I`.
pub struct Array<T: Transcodeable, I: SizeTranscodable>(pub Vec<T>, pub PhantomData<I>);

impl<T: Transcodeable, I: SizeTranscodable> View for Array<T, I> {
    type V = Seq<T::V>;

    open spec fn view(&self) -> Seq<T::V> {
        self.0@.map_values(|t: T| t@)
    }
}

/// The wire forms of `items` one after the other, or the error of the first
/// item that has none.
pub open spec fn encoding_all<T: Transcodeable>(items: Seq<T::V>) -> Result<Seq<u8>, EncodeError>
    decreases items.len(),
{
    if items.len() == 0 {
        Ok(Seq::empty())
    } else {
        match encoding_all::<T>(items.drop_last()) {
            Err(e) => Err(e),
            Ok(front) => match T::encoding(items.last()) {
                Err(e) => Err(e),
                Ok(w) => Ok(front + w),
            },
        }
    }
}

/// The first `count` values at the front of `s` and the bytes they take, or
/// the error of the first one that does not parse.
pub open spec fn parse_all<T: Transcodeable>(s: Seq<u8>, count: nat) -> Result<
    (Seq<T::V>, nat),
    DecodeError,
>
    decreases count,
{
    if count == 0 {
        Ok((Seq::empty(), 0))
    } else {
        match parse_all::<T>(s, (count - 1) as nat) {
            Err(e) => Err(e),
            Ok((front, n)) => match T::parse(s.skip(n as int)) {
                Err(e) => Err(e),
                Ok((v, m)) => Ok((front.push(v), n + m)),
            },
        }
    }
}

/// The first item without a wire form decides, however many follow.
pub proof fn lemma_encoding_all_first_error<T: Transcodeable>(items: Seq<T::V>, upto: int)
    requires
        0 <= upto <= items.len(),
        encoding_all::<T>(items.take(upto)) is Err,
    ensures
        encoding_all::<T>(items) == encoding_all::<T>(items.take(upto)),
    decreases items.len() - upto,
{
    if upto < items.len() {
        assert(items.take(upto + 1).drop_last() =~= items.take(upto));
        lemma_encoding_all_first_error::<T>(items, upto + 1);
    } else {
        assert(items.take(upto) =~= items);
    }
}

/// The first value that does not parse decides, however many are asked for.
pub proof fn lemma_parse_all_first_error<T: Transcodeable>(s: Seq<u8>, upto: nat, count: nat)
    requires
        upto <= count,
        parse_all::<T>(s, upto) is Err,
    ensures
        parse_all::<T>(s, count) == parse_all::<T>(s, upto),
    decreases count,
{
    if upto < count {
        lemma_parse_all_first_error::<T>(s, upto, (count - 1) as nat);
    }
}

/// Parsing several values never takes more bytes than there are.
pub proof fn lemma_parse_all_in_bounds<T: Transcodeable>(s: Seq<u8>, count: nat)
    ensures
        parse_all::<T>(s, count) matches Ok((items, n)) ==> n <= s.len() && items.len() == count,
    decreases count,
{
    if count > 0 {
        lemma_parse_all_in_bounds::<T>(s, (count - 1) as nat);
        if let Ok((front, n)) = parse_all::<T>(s, (count - 1) as nat) {
            T::lemma_parse_in_bounds(s.skip(n as int));
        }
    }
}

impl<T: Transcodeable, I: SizeTranscodable> Array<T, I> {
    pub fn new(t: Vec<T>) -> (a: Self)
        ensures
            a.0 == t,
    {
        Array(t, PhantomData)
    }
}

impl<T: Transcodeable, I: SizeTranscodable> Transcodeable for Array<T, I> {
    /// The count, then the items.
    open spec fn encoding(v: Seq<T::V>) -> Result<Seq<u8>, EncodeError> {
        match I::size_encoding(v.len()) {
            Err(e) => Err(e),
            Ok(head) => match encoding_all::<T>(v) {
                Err(e) => Err(e),
                Ok(body) => Ok(head + body),
            },
        }
    }

    /// The count, then exactly that many items.
    open spec fn parse(s: Seq<u8>) -> Result<(Seq<T::V>, nat), DecodeError> {
        match I::size_parse(s) {
            Err(e) => Err(e),
            Ok((count, h)) => match parse_all::<T>(s.skip(h as int), count) {
                Err(e) => Err(e),
                Ok((items, n)) => Ok((items, h + n)),
            },
        }
    }

    proof fn lemma_parse_in_bounds(s: Seq<u8>) {
        I::lemma_size_parse_in_bounds(s);
        if let Ok((count, h)) = I::size_parse(s) {
            lemma_parse_all_in_bounds::<T>(s.skip(h as int), count);
        }
    }

    fn encode(&self, buf: &mut BytesMut) -> (r: Result<(), EncodeError>) {
        let ghost start = bytes_mut_contents(*buf);
        let ghost items = self@;
        I::encode_usize(self.0.len(), buf)?;
        let ghost head = I::size_encoding(items.len()).unwrap();
        let mut i: usize = 0;
        assert(items.take(0) =~= Seq::<T::V>::empty());
        while i < self.0.len()
            invariant
                i <= self.0.len(),
                items == self@,
                start == bytes_mut_contents(*old(buf)),
                I::size_encoding(items.len()) == Ok::<Seq<u8>, EncodeError>(head),
                encoding_all::<T>(items.take(i as int)) matches Ok(body) && bytes_mut_contents(
                    *buf,
                ) == start + head + body,
            decreases self.0.len() - i,
        {
            let ghost held = bytes_mut_contents(*buf);
            proof {
                assert(items.take(i + 1).drop_last() =~= items.take(i as int));
                assert(items.take(i + 1).last() == self.0[i as int]@);
                if T::encoding(self.0[i as int]@) is Err {
                    lemma_encoding_all_first_error::<T>(items, i + 1);
                }
            }
            let step = self.0[i].encode(buf);
            if let Err(e) = step {
                assert(start.is_prefix_of(bytes_mut_contents(*buf))) by {
                    assert(start.is_prefix_of(held));
                    assert(held.is_prefix_of(bytes_mut_contents(*buf)));
                    assert(start =~= bytes_mut_contents(*buf).subrange(0, start.len() as int));
                }
                return Err(e);
            }
            assert(bytes_mut_contents(*buf) =~= start + head + encoding_all::<T>(
                items.take(i + 1),
            ).unwrap());
            i = i + 1;
        }
        assert(items.take(i as int) =~= items);
        assert(bytes_mut_contents(*buf) =~= start + (head + encoding_all::<T>(items).unwrap()));
        Ok(())
    }

    fn decode(buf: &mut Bytes) -> (r: Result<Self, DecodeError>) {
        let ghost all = bytes_contents(*buf);
        proof {
            I::lemma_size_parse_in_bounds(all);
        }
        let len = I::decode_usize(buf)?;
        let ghost h = I::size_parse(all).unwrap().1;
        let ghost body = all.skip(h as int);
        let mut vec: Vec<T> = Vec::with_capacity(len);
        let mut i: usize = 0;
        assert(body.skip(0) =~= body);
        while i < len
            invariant
                i <= len,
                all == bytes_contents(*old(buf)),
                h <= all.len(),
                body == all.skip(h as int),
                I::size_parse(all) == Ok::<(nat, nat), DecodeError>((len as nat, h)),
                parse_all::<T>(body, i as nat) matches Ok((items, n)) && items == vec@.map_values(
                    |t: T| t@,
                ) && bytes_contents(*buf) == body.skip(n as int) && n <= body.len(),
            decreases len - i,
        {
            let ghost (front, n) = parse_all::<T>(body, i as nat).unwrap();
            proof {
                T::lemma_parse_in_bounds(body.skip(n as int));
                if T::parse(body.skip(n as int)) is Err {
                    lemma_parse_all_first_error::<T>(body, (i + 1) as nat, len as nat);
                }
            }
            let item = match T::decode(buf) {
                Ok(item) => item,
                Err(e) => {
                    assert(crate::wire::is_rest_of(bytes_contents(*buf), all));
                    return Err(e);
                },
            };
            let ghost m = T::parse(body.skip(n as int)).unwrap().1;
            assert(bytes_contents(*buf) =~= body.skip((n + m) as int));
            let ghost before = vec@;
            vec.push(item);
            assert(vec@.map_values(|t: T| t@) =~= before.map_values(|t: T| t@).push(item@));
            i = i + 1;
        }
        let ghost n = parse_all::<T>(body, len as nat).unwrap().1;
        assert(bytes_contents(*buf) =~= all.skip((h + n) as int));
        Ok(Array(vec, PhantomData))
    }

    /// Not known without encoding.
    open spec fn size(v: Seq<T::V>) -> Option<nat> {
        None
    }

    proof fn lemma_size_is_exact(v: Seq<T::V>) {
    }

    fn size_hint(&self) -> (r: Option<usize>) {
        None
    }
}

} // verus!
