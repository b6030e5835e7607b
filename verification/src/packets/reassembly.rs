//! Cutting a growing byte stream into frames.
use crate::buffer::{
    bytes_contents, bytes_copy_from_slice, bytes_mut_contents, chunk_mut, freeze, remaining,
    split_to_mut, written,
};
use crate::codec::{DecodeError, Transcodeable};
use crate::packets::framed;
use crate::types::varint::{
    leb128, leb128_len, lemma_leb128_cut_short, lemma_leb128_len_bounds,
    lemma_leb128_parse_in_bounds, lemma_leb128_parse_looks_at_cap, lemma_varint_round_trip, VarInt,
};
use crate::wire::unsigned_value;
use bytes::{Bytes, BytesMut};
use vstd::prelude::*;
use vstd::slice::slice_subrange;

verus! {

/// How many bytes the frame at the front of `s` takes, length prefix
/// included, if `s` holds all of it. `None` says that more bytes are needed:
/// the prefix is not yet complete, or the frame is not. A prefix that is no
/// `VarInt`, or a negative one, is an error.
pub open spec fn frame_extent(s: Seq<u8>) -> Result<Option<nat>, DecodeError> {
    match VarInt::parse(s) {
        Err(DecodeError::TruncatedInput) => Ok(None),
        Err(e) => Err(e),
        Ok((len, n)) => if len < 0 {
            Err(DecodeError::InvalidEncoding)
        } else if s.len() >= n + len {
            Ok(Some((n + len) as nat))
        } else {
            Ok(None)
        },
    }
}

/// A frame is taken when it is whole, and not before: of a frame that this
/// library builds, no part that lacks a byte is a frame, and the whole is
/// one, whatever follows it in the stream.
pub proof fn lemma_frame_is_taken_whole(id: i32, body: Seq<u8>, upto: int, rest: Seq<u8>)
    requires
        framed(id, body) is Ok,
        0 <= upto < framed(id, body).unwrap().len(),
    ensures
        frame_extent(framed(id, body).unwrap().take(upto)) == Ok::<Option<nat>, DecodeError>(None),
        frame_extent(framed(id, body).unwrap() + rest) == Ok::<Option<nat>, DecodeError>(
            Some(framed(id, body).unwrap().len()),
        ),
{
    let frame = framed(id, body).unwrap();
    let tail = leb128(unsigned_value(id as int, 32)) + body;
    let total = tail.len();
    let n1 = leb128_len(total);
    lemma_leb128_len_bounds(total);
    assert(frame =~= leb128(total) + tail);
    if upto < n1 {
        assert(frame.take(upto) =~= leb128(total).take(upto));
        lemma_leb128_cut_short(total, upto as nat, 5);
    } else {
        assert(frame.take(upto) =~= leb128(total) + tail.take(upto - n1));
        lemma_varint_round_trip(total as i32, tail.take(upto - n1));
    }
    assert(frame + rest =~= leb128(total) + (tail + rest));
    lemma_varint_round_trip(total as i32, tail + rest);
}

/// Takes the first frame off `buf` once `buf` holds all of it, and leaves
/// `buf` untouched until then. At most five bytes are looked at to find the
/// frame's length.
pub fn next_frame(buf: &mut BytesMut) -> (r: Result<Option<Bytes>, DecodeError>)
    ensures
        match frame_extent(bytes_mut_contents(*old(buf))) {
            Ok(Some(total)) => r matches Ok(Some(frame)) && bytes_contents(frame)
                == bytes_mut_contents(*old(buf)).take(total as int) && bytes_mut_contents(
                *final(buf),
            ) == bytes_mut_contents(*old(buf)).skip(total as int),
            Ok(None) => r matches Ok(None) && bytes_mut_contents(*final(buf))
                == bytes_mut_contents(*old(buf)),
            Err(e) => r matches Err(x) && x == e && bytes_mut_contents(*final(buf))
                == bytes_mut_contents(*old(buf)),
        },
{
    let ghost s = bytes_mut_contents(*buf);
    let held = chunk_mut(buf);
    let peek: usize = if held.len() < 5 {
        held.len()
    } else {
        5
    };
    let mut probe = bytes_copy_from_slice(slice_subrange(held, 0, peek));
    proof {
        assert(bytes_contents(probe) =~= s.take(peek as int));
        lemma_leb128_parse_looks_at_cap(s, peek as nat, 5);
        lemma_leb128_parse_in_bounds(s, 5);
    }
    match VarInt::decode(&mut probe) {
        Err(DecodeError::TruncatedInput) => Ok(None),
        Err(e) => Err(e),
        Ok(len) => {
            let prefix = peek - remaining(&probe);
            if len.0 < 0 {
                return Err(DecodeError::InvalidEncoding);
            }
            let total = len.0 as usize + prefix;
            if written(buf) >= total {
                let frame = split_to_mut(buf, total);
                Ok(Some(freeze(frame)))
            } else {
                Ok(None)
            }
        },
    }
}

/// The whole frames at the front of `s`, in order, what is left behind
/// them, and the error at which the cutting stopped, if it did.
pub open spec fn cut(s: Seq<u8>) -> (Seq<Seq<u8>>, Seq<u8>, Option<DecodeError>)
    decreases s.len(),
{
    match frame_extent(s) {
        Err(e) => (Seq::empty(), s, Some(e)),
        Ok(None) => (Seq::empty(), s, None),
        Ok(Some(total)) => if 0 < total <= s.len() {
            let (frames, rest, error) = cut(s.skip(total as int));
            (seq![s.take(total as int)] + frames, rest, error)
        } else {
            (Seq::empty(), s, None)
        },
    }
}

/// Byte strings one after the other.
pub open spec fn joined(parts: Seq<Seq<u8>>) -> Seq<u8>
    decreases parts.len(),
{
    if parts.len() == 0 {
        Seq::empty()
    } else {
        joined(parts.drop_last()) + parts.last()
    }
}

/// What a receiver has after the chunks of a stream came in one by one,
/// each appended to what the one before left and then cut: the frames in
/// the order they were cut, what is left, and the error that stopped it.
pub open spec fn fed(chunks: Seq<Seq<u8>>) -> (Seq<Seq<u8>>, Seq<u8>, Option<DecodeError>)
    decreases chunks.len(),
{
    if chunks.len() == 0 {
        (Seq::empty(), Seq::empty(), None)
    } else {
        let (frames, rest, error) = fed(chunks.drop_last());
        if error is Some {
            (frames, rest, error)
        } else {
            let (more, left, stopped) = cut(rest + chunks.last());
            (frames + more, left, stopped)
        }
    }
}

/// Whether `frame` is exactly one frame.
pub open spec fn is_whole_frame(frame: Seq<u8>) -> bool {
    frame_extent(frame) == Ok::<Option<nat>, DecodeError>(Some(frame.len()))
}

/// The buffers of a vector, each as its bytes.
pub open spec fn contents_of(frames: Seq<Bytes>) -> Seq<Seq<u8>> {
    frames.map_values(|b: Bytes| bytes_contents(b))
}

/// A frame that this library builds is exactly one frame.
pub proof fn lemma_built_frame_is_whole(id: i32, body: Seq<u8>)
    requires
        framed(id, body) is Ok,
    ensures
        is_whole_frame(framed(id, body).unwrap()),
{
    let frame = framed(id, body).unwrap();
    lemma_leb128_len_bounds((leb128(unsigned_value(id as int, 32)) + body).len());
    lemma_frame_is_taken_whole(id, body, 0, Seq::empty());
    assert(frame + Seq::<u8>::empty() =~= frame);
}

/// What was decided of the front of a stream stays decided when more
/// arrives: a frame stays that frame, an error stays that error.
pub proof fn lemma_extent_ignores_rest(s: Seq<u8>, rest: Seq<u8>)
    requires
        frame_extent(s) != Ok::<Option<nat>, DecodeError>(None),
    ensures
        frame_extent(s + rest) == frame_extent(s),
{
    crate::types::varint::lemma_leb128_parse_ignores_rest(s, rest, 5);
}

/// Cutting goes on where it stopped: cutting a stream and then what it left
/// together with what came after gives the frames of the whole.
pub proof fn lemma_cut_resumes(first: Seq<u8>, then: Seq<u8>)
    requires
        cut(first).2 is None,
    ensures
        cut(first + then) == (
            cut(first).0 + cut(cut(first).1 + then).0,
            cut(cut(first).1 + then).1,
            cut(cut(first).1 + then).2,
        ),
    decreases first.len(),
{
    match frame_extent(first) {
        Ok(Some(total)) => {
            lemma_leb128_parse_in_bounds(first, 5);
            lemma_extent_ignores_rest(first, then);
            let tail = first.skip(total as int);
            assert((first + then).take(total as int) =~= first.take(total as int));
            assert((first + then).skip(total as int) =~= tail + then);
            lemma_cut_resumes(tail, then);
            let head = seq![first.take(total as int)];
            assert(head + (cut(tail).0 + cut(cut(tail).1 + then).0) =~= (head + cut(tail).0) + cut(
                cut(tail).1 + then,
            ).0);
        },
        Ok(None) => {
            assert(Seq::<Seq<u8>>::empty() + cut(first + then).0 =~= cut(first + then).0);
        },
        Err(_) => {},
    }
}

/// A stream that is cut without error was without error all the way.
pub proof fn lemma_cut_front_has_no_error(first: Seq<u8>, then: Seq<u8>)
    requires
        cut(first + then).2 is None,
    ensures
        cut(first).2 is None,
    decreases first.len(),
{
    if frame_extent(first) != Ok::<Option<nat>, DecodeError>(None) {
        lemma_extent_ignores_rest(first, then);
        if let Ok(Some(total)) = frame_extent(first) {
            lemma_leb128_parse_in_bounds(first, 5);
            assert((first + then).skip(total as int) =~= first.skip(total as int) + then);
            lemma_cut_front_has_no_error(first.skip(total as int), then);
        }
    }
}

/// Frames sent one after the other are cut apart as they were sent: each
/// whole, in order, and what follows the last one is left.
pub proof fn lemma_cut_of_frames(frames: Seq<Seq<u8>>, tail: Seq<u8>)
    requires
        forall|i: int| 0 <= i < frames.len() ==> is_whole_frame(#[trigger] frames[i]),
        frame_extent(tail) == Ok::<Option<nat>, DecodeError>(None),
    ensures
        cut(joined(frames) + tail) == (frames, tail, None::<DecodeError>),
    decreases frames.len(),
{
    if frames.len() == 0 {
        assert(joined(frames) + tail =~= tail);
        assert(frames =~= Seq::<Seq<u8>>::empty());
    } else {
        let front = frames.drop_last();
        let last = frames.last();
        let none = Seq::<u8>::empty();
        assert(frame_extent(none) == Ok::<Option<nat>, DecodeError>(None));
        assert forall|i: int| 0 <= i < front.len() implies is_whole_frame(#[trigger] front[i]) by {
            assert(front[i] == frames[i]);
        }
        lemma_cut_of_frames(front, none);
        assert(joined(front) + none =~= joined(front));
        assert(cut(joined(front)) == (front, none, None::<DecodeError>));
        // the last frame is cut off what follows it
        assert(is_whole_frame(frames[frames.len() - 1]));
        lemma_leb128_parse_in_bounds(last, 5);
        lemma_extent_ignores_rest(last, tail);
        assert((last + tail).take(last.len() as int) =~= last);
        assert((last + tail).skip(last.len() as int) =~= tail);
        assert(seq![last] + Seq::<Seq<u8>>::empty() =~= seq![last]);
        assert(cut(tail) == (Seq::<Seq<u8>>::empty(), tail, None::<DecodeError>));
        assert(cut(last + tail) == (seq![last], tail, None::<DecodeError>));
        // and cutting the whole goes on from the frames before it
        lemma_cut_resumes(joined(front), last + tail);
        assert(none + (last + tail) =~= last + tail);
        assert(joined(frames) + tail =~= joined(front) + (last + tail));
        assert(front + seq![last] =~= frames);
    }
}

/// How a stream is split into chunks does not matter: cutting chunk by
/// chunk, each with what the one before left, gives the frames of the whole
/// stream, in the same order, and leaves the same bytes.
pub proof fn lemma_split_does_not_matter(chunks: Seq<Seq<u8>>)
    requires
        cut(joined(chunks)).2 is None,
    ensures
        fed(chunks) == cut(joined(chunks)),
    decreases chunks.len(),
{
    if chunks.len() > 0 {
        let front = chunks.drop_last();
        lemma_cut_front_has_no_error(joined(front), chunks.last());
        lemma_split_does_not_matter(front);
        lemma_cut_resumes(joined(front), chunks.last());
    }
}

/// Takes every whole frame off the front of `buf`, in order, and leaves what
/// is behind them. Where a length prefix is bad, the frames before it are
/// still handed out, together with the error.
pub fn take_frames(buf: &mut BytesMut) -> (r: (Vec<Bytes>, Option<DecodeError>))
    ensures
        contents_of(r.0@) == cut(bytes_mut_contents(*old(buf))).0,
        bytes_mut_contents(*final(buf)) == cut(bytes_mut_contents(*old(buf))).1,
        r.1 == cut(bytes_mut_contents(*old(buf))).2,
{
    let mut frames: Vec<Bytes> = Vec::new();
    let ghost all = bytes_mut_contents(*buf);
    assert(contents_of(frames@) + cut(all).0 =~= cut(all).0);
    loop
        invariant
            all == bytes_mut_contents(*old(buf)),
            cut(all) == (
                contents_of(frames@) + cut(bytes_mut_contents(*buf)).0,
                cut(bytes_mut_contents(*buf)).1,
                cut(bytes_mut_contents(*buf)).2,
            ),
        decreases bytes_mut_contents(*buf).len(),
    {
        let ghost held = bytes_mut_contents(*buf);
        let ghost before = frames@;
        proof {
            lemma_leb128_parse_in_bounds(held, 5);
        }
        match next_frame(buf) {
            Ok(Some(frame)) => {
                frames.push(frame);
                proof {
                    let head = seq![bytes_contents(frame)];
                    assert(contents_of(frames@) =~= contents_of(before) + head);
                    assert(contents_of(before) + (head + cut(bytes_mut_contents(*buf)).0) =~= (
                    contents_of(before) + head) + cut(bytes_mut_contents(*buf)).0);
                }
            },
            Ok(None) => {
                assert(contents_of(frames@) + Seq::<Seq<u8>>::empty() =~= contents_of(frames@));
                return (frames, None);
            },
            Err(e) => {
                assert(contents_of(frames@) + Seq::<Seq<u8>>::empty() =~= contents_of(frames@));
                return (frames, Some(e));
            },
        }
    }
}

} // verus!
