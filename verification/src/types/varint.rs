//! Variable-length integers: seven bits per byte, least significant group
//! first, the top bit of a byte saying that another group follows.
use crate::buffer::{bytes_contents, bytes_mut_contents, get_u8, put_u8, remaining};
use crate::codec::{DecodeError, EncodeError, SizeTranscodable, Transcodeable};
use crate::wire::{
    is_rest_of, lemma_i32_pattern, lemma_i64_pattern, unsigned_value, wrapped_signed,
};
use bytes::{Bytes, BytesMut};
use vstd::arithmetic::power2::lemma2_to64;
use vstd::prelude::*;

verus! {

/// A 32-bit signed integer sent in at most five groups.
#[derive(Copy, Clone, Debug, PartialEq, Eq, Structural)]
pub struct VarInt(pub i32);

/// A 64-bit signed integer sent in at most ten groups.
#[derive(Copy, Clone, Debug, PartialEq, Eq, Structural)]
pub struct VarLong(pub i64);

/// The groups of `n`: its base-128 digits, least significant first, every
/// digit but the last with the top bit set. Zero is one zero byte.
pub open spec fn leb128(n: nat) -> Seq<u8>
    decreases n,
{
    if n < 128 {
        seq![n as u8]
    } else {
        seq![(n % 128 + 128) as u8] + leb128(n / 128)
    }
}

/// The number of groups of `n`.
pub open spec fn leb128_len(n: nat) -> nat
    decreases n,
{
    if n < 128 {
        1
    } else {
        1 + leb128_len(n / 128)
    }
}

/// The number spelled by the groups at the front of `s` and how many bytes
/// they take, reading at most `max_groups` of them. The number is not
/// reduced to any width. Running into the cap before a final group is
/// `MalformedVarInt`; running out of bytes before that is `TruncatedInput`.
pub open spec fn leb128_parse(s: Seq<u8>, max_groups: nat) -> Result<(nat, nat), DecodeError>
    decreases max_groups,
{
    if max_groups == 0 {
        Err(DecodeError::MalformedVarInt)
    } else if s.len() == 0 {
        Err(DecodeError::TruncatedInput)
    } else if s[0] < 128 {
        Ok((s[0] as nat, 1))
    } else {
        match leb128_parse(s.skip(1), (max_groups - 1) as nat) {
            Ok((v, n)) => Ok(((s[0] - 128) as nat + 128 * v, n + 1)),
            Err(e) => Err(e),
        }
    }
}

/// A parse of a tail of the groups, seen from the front: `partial` is what
/// the `k` groups before the tail spell and `weight` is `128^k`.
spec fn resumed(
    r: Result<(nat, nat), DecodeError>,
    partial: nat,
    weight: nat,
    k: nat,
) -> Result<(nat, nat), DecodeError> {
    match r {
        Ok((v, n)) => Ok((partial + weight * v, n + k)),
        Err(e) => Err(e),
    }
}

proof fn lemma_resume_step(s: Seq<u8>, max_groups: nat, partial: nat, weight: nat, k: nat)
    requires
        max_groups > 0,
        s.len() > 0,
        s[0] >= 128,
    ensures
        resumed(leb128_parse(s, max_groups), partial, weight, k) == resumed(
            leb128_parse(s.skip(1), (max_groups - 1) as nat),
            partial + weight * (s[0] - 128) as nat,
            128 * weight,
            k + 1,
        ),
{
    let d = (s[0] - 128) as nat;
    match leb128_parse(s.skip(1), (max_groups - 1) as nat) {
        Ok((v, n)) => {
            assert(partial + weight * (d + 128 * v) == (partial + weight * d) + (128 * weight) * v)
                by (nonlinear_arith);
        },
        Err(e) => {},
    }
}

/// A parse takes at least one byte, and never more than there are or than
/// the cap.
pub proof fn lemma_leb128_parse_in_bounds(s: Seq<u8>, max_groups: nat)
    ensures
        leb128_parse(s, max_groups) matches Ok((_, n)) ==> 1 <= n <= s.len() && n <= max_groups,
    decreases max_groups,
{
    if max_groups > 0 && s.len() > 0 && s[0] >= 128 {
        lemma_leb128_parse_in_bounds(s.skip(1), (max_groups - 1) as nat);
    }
}

/// A parse looks at no more bytes than the cap: cutting the input after
/// that many bytes, or anywhere behind them, changes nothing.
pub proof fn lemma_leb128_parse_looks_at_cap(s: Seq<u8>, upto: nat, max_groups: nat)
    requires
        upto <= s.len(),
        upto >= max_groups || upto == s.len(),
    ensures
        leb128_parse(s.take(upto as int), max_groups) == leb128_parse(s, max_groups),
    decreases max_groups,
{
    let cut = s.take(upto as int);
    if max_groups > 0 && s.len() > 0 {
        if upto > 0 {
            assert(cut[0] == s[0]);
            assert(cut.skip(1) =~= s.skip(1).take(upto - 1));
            lemma_leb128_parse_looks_at_cap(s.skip(1), (upto - 1) as nat, (max_groups - 1) as nat);
        }
    } else if max_groups > 0 {
        assert(cut.len() == 0);
    }
}

/// A parse fails in two ways only.
pub proof fn lemma_leb128_errors(s: Seq<u8>, max_groups: nat)
    ensures
        leb128_parse(s, max_groups) matches Err(e) ==> e == DecodeError::MalformedVarInt || e
            == DecodeError::TruncatedInput,
    decreases max_groups,
{
    if max_groups > 0 && s.len() > 0 && s[0] >= 128 {
        lemma_leb128_errors(s.skip(1), (max_groups - 1) as nat);
    }
}

/// The group count never exceeds what the width of the number allows.
pub proof fn lemma_leb128_len_bounds(n: nat)
    ensures
        leb128(n).len() == leb128_len(n),
        1 <= leb128_len(n),
        n < 0x80 ==> leb128_len(n) == 1,
        0x80 <= n < 0x4000 ==> leb128_len(n) == 2,
        0x4000 <= n < 0x20_0000 ==> leb128_len(n) == 3,
        0x20_0000 <= n < 0x1000_0000 ==> leb128_len(n) == 4,
        n < 0x1_0000_0000 ==> leb128_len(n) <= 5,
        n < 0x1_0000_0000_0000_0000 ==> leb128_len(n) <= 10,
    decreases n,
{
    reveal_with_fuel(leb128_len, 11);
    if n >= 128 {
        lemma_leb128_len_bounds(n / 128);
    }
}

/// Reading back the groups of `n` gives `n` and takes exactly those bytes,
/// whatever follows them, as long as the cap admits that many groups.
pub proof fn lemma_leb128_round_trip(n: nat, rest: Seq<u8>, max_groups: nat)
    requires
        leb128_len(n) <= max_groups,
    ensures
        leb128_parse(leb128(n) + rest, max_groups) == Ok::<(nat, nat), DecodeError>(
            (n, leb128_len(n)),
        ),
    decreases n,
{
    let s = leb128(n) + rest;
    if n < 128 {
        assert(s[0] == n as u8);
    } else {
        let head = (n % 128 + 128) as u8;
        assert(s[0] == head);
        assert(s.skip(1) =~= leb128(n / 128) + rest);
        lemma_leb128_round_trip(n / 128, rest, (max_groups - 1) as nat);
    }
}

/// A parse that does not run out of bytes does not look at what follows
/// them.
pub proof fn lemma_leb128_parse_ignores_rest(s: Seq<u8>, rest: Seq<u8>, max_groups: nat)
    requires
        leb128_parse(s, max_groups) != Err::<(nat, nat), DecodeError>(DecodeError::TruncatedInput),
    ensures
        leb128_parse(s + rest, max_groups) == leb128_parse(s, max_groups),
    decreases max_groups,
{
    if max_groups > 0 {
        assert((s + rest)[0] == s[0]);
        if s[0] >= 128 {
            assert((s + rest).skip(1) =~= s.skip(1) + rest);
            lemma_leb128_parse_ignores_rest(s.skip(1), rest, (max_groups - 1) as nat);
        }
    }
}

/// Groups that are cut short are not mistaken for a number: what is left of
/// them asks for more bytes.
pub proof fn lemma_leb128_cut_short(n: nat, upto: nat, max_groups: nat)
    requires
        upto < leb128_len(n) <= max_groups,
    ensures
        leb128_parse(leb128(n).take(upto as int), max_groups) == Err::<(nat, nat), DecodeError>(
            DecodeError::TruncatedInput,
        ),
    decreases n,
{
    let cut = leb128(n).take(upto as int);
    lemma_leb128_len_bounds(n);
    if n >= 128 && upto > 0 {
        lemma_leb128_len_bounds(n / 128);
        assert(cut[0] == (n % 128 + 128) as u8);
        assert(cut.skip(1) =~= leb128(n / 128).take(upto - 1));
        lemma_leb128_cut_short(n / 128, (upto - 1) as nat, (max_groups - 1) as nat);
    }
}

/// A run of `max_groups` bytes that all announce a successor is rejected as
/// malformed, whatever follows.
pub proof fn lemma_leb128_overrun(s: Seq<u8>, max_groups: nat)
    requires
        max_groups <= s.len(),
        forall|i: int| 0 <= i < max_groups ==> s[i] >= 128,
    ensures
        leb128_parse(s, max_groups) == Err::<(nat, nat), DecodeError>(
            DecodeError::MalformedVarInt,
        ),
    decreases max_groups,
{
    if max_groups > 0 {
        let t = s.skip(1);
        assert forall|i: int| 0 <= i < max_groups - 1 implies t[i] >= 128 by {
            assert(t[i] == s[i + 1]);
        }
        lemma_leb128_overrun(t, (max_groups - 1) as nat);
    }
}

/// Appends the groups of `num` to `buf`.
pub fn encode_leb128(num: u64, buf: &mut BytesMut) -> (r: Result<(), EncodeError>)
    ensures
        r is Ok,
        bytes_mut_contents(*final(buf)) == bytes_mut_contents(*old(buf)) + leb128(num as nat),
{
    let mut num = num;
    let ghost start = bytes_mut_contents(*buf);
    let ghost all = leb128(num as nat);
    loop
        invariant_except_break
            bytes_mut_contents(*buf) + leb128(num as nat) == start + all,
        ensures
            bytes_mut_contents(*buf) == start + all,
        decreases num,
    {
        let low = (num & 0x7F) as u8;
        let ghost before = num;
        let ghost held = bytes_mut_contents(*buf);
        num = num >> 7;
        assert(low == before % 128 && num == before / 128 && (low | 0x80) == low + 128) by {
            assert((before & 0x7F) == before % 128) by (bit_vector);
            assert((before >> 7) == before / 128) by (bit_vector);
            assert(low < 128 ==> (low | 0x80) == low + 128) by (bit_vector);
        }
        if num != 0 {
            put_u8(buf, low | 0x80);
            assert(bytes_mut_contents(*buf) + leb128(num as nat) =~= held + leb128(before as nat));
        } else {
            put_u8(buf, low);
            assert(bytes_mut_contents(*buf) =~= held + leb128(before as nat));
            break ;
        }
    }
    Ok(())
}

/// Reads groups off the front of `buf`, at most `max_len` of them, and
/// returns the number they spell, reduced to 64 bits. The accumulator has
/// room for ten groups, so `max_len` is at most 10.
///
/// No more than `max_len` bytes are ever taken. On an overrun exactly
/// `max_len` are gone; where the bytes run out, all of them are.
pub fn decode_leb128(buf: &mut Bytes, max_len: usize) -> (r: Result<u64, DecodeError>)
    requires
        max_len <= 10,
    ensures
        bytes_contents(*old(buf)).len() - bytes_contents(*final(buf)).len() <= max_len,
        match leb128_parse(bytes_contents(*old(buf)), max_len as nat) {
            Ok((v, n)) => r == Ok::<u64, DecodeError>((v % 0x1_0000_0000_0000_0000) as u64)
                && bytes_contents(*final(buf)) == bytes_contents(*old(buf)).skip(n as int),
            Err(e) => r == Err::<u64, DecodeError>(e) && is_rest_of(
                bytes_contents(*final(buf)),
                bytes_contents(*old(buf)),
            ) && (e == DecodeError::MalformedVarInt ==> bytes_contents(*final(buf))
                == bytes_contents(*old(buf)).skip(max_len as int)) && (e
                == DecodeError::TruncatedInput ==> bytes_contents(*final(buf)).len() == 0),
        },
{
    proof {
        lemma_leb128_parse_in_bounds(bytes_contents(*buf), max_len as nat);
        lemma_leb128_errors(bytes_contents(*buf), max_len as nat);
    }
    let mut shift: u64 = 0;
    let mut val: u64 = 0;
    let mut taken: usize = 0;
    let ghost all = bytes_contents(*buf);
    let ghost partial: nat = 0;
    let ghost weight: nat = 1;
    assert(1u64 << 0u64 == 1) by (bit_vector);
    assert(all.skip(0) =~= all);
    while taken < max_len
        invariant
            all == bytes_contents(*old(buf)),
            taken <= max_len <= 10,
            shift == 7 * taken,
            bytes_contents(*buf) == all.skip(taken as int),
            taken <= all.len(),
            taken < 10 ==> weight == (1u64 << shift) && val == partial && partial < weight,
            leb128_parse(all, max_len as nat) == resumed(
                leb128_parse(all.skip(taken as int), (max_len - taken) as nat),
                partial,
                weight,
                taken as nat,
            ),
        decreases max_len - taken,
    {
        let ghost tail = all.skip(taken as int);
        if remaining(buf) == 0 {
            return Err(DecodeError::TruncatedInput);
        }
        let byte = get_u8(buf);
        let low: u64 = (byte & 0x7F) as u64;
        let ghost before = val;
        val = val | (low << shift);
        assert(bytes_contents(*buf) =~= all.skip(taken + 1));
        assert(tail.skip(1) =~= all.skip(taken + 1));
        assert(byte == tail[0]);
        assert(low == byte % 128 && low < 128) by {
            assert((byte & 0x7F) == byte % 128) by (bit_vector);
        }
        assert(shift <= 56 ==> val == before + low * (1u64 << shift)) by {
            assert(shift <= 56 && low < 128 && before < (1u64 << shift) ==> (before | (low
                << shift)) == before + low * (1u64 << shift)) by (bit_vector);
        }
        assert(shift == 63 ==> val == before + (low % 2) * 0x8000_0000_0000_0000) by {
            assert(shift == 63 && before < (1u64 << shift) ==> (before | (low << shift))
                == before + (low % 2) * 0x8000_0000_0000_0000) by (bit_vector);
        }
        assert(shift == 63 ==> weight == 0x8000_0000_0000_0000) by {
            assert(1u64 << 63u64 == 0x8000_0000_0000_0000) by (bit_vector);
        }
        assert(shift <= 49 ==> (1u64 << (shift + 7) as u64) == 128 * (1u64 << shift)) by {
            assert(shift <= 49 ==> (1u64 << (shift + 7) as u64) == 128 * (1u64 << shift))
                by (bit_vector);
        }
        assert(shift == 56 ==> (1u64 << 63u64) == 128 * (1u64 << shift)) by {
            assert(128 * (1u64 << 56u64) == (1u64 << 63u64)) by (bit_vector);
        }
        if byte < 128 {
            assert(weight * low == low * weight) by (nonlinear_arith);
            assert(leb128_parse(tail, (max_len - taken) as nat) == Ok::<(nat, nat), DecodeError>(
                (byte as nat, 1),
            ));
            let ghost total = partial + weight * (byte as nat);
            assert(total % 0x1_0000_0000_0000_0000 == val) by {
                if shift == 63 {
                    assert(low == 2 * (low / 2) + low % 2);
                    assert(total == val + (low / 2) * 0x1_0000_0000_0000_0000);
                }
            }
            return Ok(val);
        }
        proof {
            lemma_resume_step(tail, (max_len - taken) as nat, partial, weight, taken as nat);
            assert(weight * low == low * weight && weight * low <= 127 * weight)
                by (nonlinear_arith)
                requires
                    low <= 127,
            ;
            partial = partial + weight * low as nat;
            weight = 128 * weight;
        }
        taken = taken + 1;
        shift = shift + 7;
    }
    Err(DecodeError::MalformedVarInt)
}

/// The number of groups of `num`.
pub fn leb128_size(num: u64) -> (len: usize)
    ensures
        len == leb128_len(num as nat),
        1 <= len <= 10,
{
    let mut rest = num;
    let mut len: usize = 1;
    proof {
        lemma_leb128_len_bounds(num as nat);
    }
    while rest >= 128
        invariant
            len + leb128_len(rest as nat) == 1 + leb128_len(num as nat),
            leb128_len(num as nat) <= 10,
            len >= 1,
        decreases rest,
    {
        assert((rest >> 7) == rest / 128) by (bit_vector);
        rest = rest >> 7;
        len = len + 1;
    }
    len
}

impl View for VarInt {
    type V = i32;

    open spec fn view(&self) -> i32 {
        self.0
    }
}

impl View for VarLong {
    type V = i64;

    open spec fn view(&self) -> i64 {
        self.0
    }
}

impl Transcodeable for VarInt {
    /// The groups of the 32-bit two's-complement pattern of `v`.
    open spec fn encoding(v: i32) -> Result<Seq<u8>, EncodeError> {
        Ok(leb128(unsigned_value(v as int, 32)))
    }

    /// At most five groups; the number they spell is cut to its low 32 bits
    /// and read as two's complement.
    open spec fn parse(s: Seq<u8>) -> Result<(i32, nat), DecodeError> {
        match leb128_parse(s, 5) {
            Ok((v, n)) => Ok((wrapped_signed(v, 32) as i32, n)),
            Err(e) => Err(e),
        }
    }

    proof fn lemma_parse_in_bounds(s: Seq<u8>) {
        lemma_leb128_parse_in_bounds(s, 5);
    }

    fn encode(&self, buf: &mut BytesMut) -> (r: Result<(), EncodeError>) {
        proof {
            lemma_i32_pattern(self.0, 0);
        }
        encode_leb128(self.0 as u32 as u64, buf)
    }

    /// No more than five bytes are taken, whatever they hold.
    fn decode(buf: &mut Bytes) -> (r: Result<Self, DecodeError>)
        ensures
            bytes_contents(*old(buf)).len() - bytes_contents(*final(buf)).len() <= 5,
    {
        match decode_leb128(buf, 5) {
            Ok(x) => {
                proof {
                    lemma_i32_pattern(0, x);
                    lemma2_to64();
                }
                Ok(VarInt(x as i32))
            },
            Err(e) => Err(e),
        }
    }

    /// The number of groups.
    open spec fn size(v: i32) -> Option<nat> {
        Some(leb128_len(unsigned_value(v as int, 32)))
    }

    proof fn lemma_size_is_exact(v: i32) {
        lemma_leb128_len_bounds(unsigned_value(v as int, 32));
    }

    fn size_hint(&self) -> (r: Option<usize>)
        ensures
            r matches Some(n) && 1 <= n <= 5,
    {
        proof {
            lemma_i32_pattern(self.0, 0);
            lemma_leb128_len_bounds(unsigned_value(self.0 as int, 32));
            lemma2_to64();
        }
        Some(leb128_size(self.0 as u32 as u64))
    }
}

impl Transcodeable for VarLong {
    /// The groups of the 64-bit two's-complement pattern of `v`.
    open spec fn encoding(v: i64) -> Result<Seq<u8>, EncodeError> {
        Ok(leb128(unsigned_value(v as int, 64)))
    }

    /// At most ten groups; the number they spell is cut to its low 64 bits
    /// and read as two's complement.
    open spec fn parse(s: Seq<u8>) -> Result<(i64, nat), DecodeError> {
        match leb128_parse(s, 10) {
            Ok((v, n)) => Ok((wrapped_signed(v, 64) as i64, n)),
            Err(e) => Err(e),
        }
    }

    proof fn lemma_parse_in_bounds(s: Seq<u8>) {
        lemma_leb128_parse_in_bounds(s, 10);
    }

    fn encode(&self, buf: &mut BytesMut) -> (r: Result<(), EncodeError>) {
        proof {
            lemma_i64_pattern(self.0, 0);
        }
        encode_leb128(self.0 as u64, buf)
    }

    /// No more than ten bytes are taken, whatever they hold.
    fn decode(buf: &mut Bytes) -> (r: Result<Self, DecodeError>)
        ensures
            bytes_contents(*old(buf)).len() - bytes_contents(*final(buf)).len() <= 10,
    {
        match decode_leb128(buf, 10) {
            Ok(x) => {
                proof {
                    lemma_i64_pattern(0, x);
                    lemma2_to64();
                }
                Ok(VarLong(x as i64))
            },
            Err(e) => Err(e),
        }
    }

    /// The number of groups.
    open spec fn size(v: i64) -> Option<nat> {
        Some(leb128_len(unsigned_value(v as int, 64)))
    }

    proof fn lemma_size_is_exact(v: i64) {
        lemma_leb128_len_bounds(unsigned_value(v as int, 64));
    }

    fn size_hint(&self) -> (r: Option<usize>)
        ensures
            r matches Some(n) && 1 <= n <= 10,
    {
        proof {
            lemma_i64_pattern(self.0, 0);
            lemma_leb128_len_bounds(unsigned_value(self.0 as int, 64));
        }
        Some(leb128_size(self.0 as u64))
    }
}

impl SizeTranscodable for VarInt {
    /// A count is sent as a `VarInt`; one above `i32::MAX` has no wire form.
    open spec fn size_encoding(len: nat) -> Result<Seq<u8>, EncodeError> {
        if len <= i32::MAX {
            Ok(leb128(len))
        } else {
            Err(EncodeError::ValueTooLarge)
        }
    }

    /// A `VarInt` that is not negative.
    open spec fn size_parse(s: Seq<u8>) -> Result<(nat, nat), DecodeError> {
        match VarInt::parse(s) {
            Ok((v, n)) => if v >= 0 {
                Ok((v as nat, n))
            } else {
                Err(DecodeError::InvalidEncoding)
            },
            Err(e) => Err(e),
        }
    }

    proof fn lemma_size_parse_in_bounds(s: Seq<u8>) {
        lemma_leb128_parse_in_bounds(s, 5);
    }

    fn encode_usize(len: usize, buf: &mut BytesMut) -> (r: Result<(), EncodeError>) {
        if len > i32::MAX as usize {
            return Err(EncodeError::ValueTooLarge);
        }
        VarInt(len as i32).encode(buf)
    }

    fn decode_usize(buf: &mut Bytes) -> (r: Result<usize, DecodeError>) {
        let ghost before = bytes_contents(*buf);
        let v = VarInt::decode(buf)?;
        if v.0 < 0 {
            proof {
                lemma_leb128_parse_in_bounds(before, 5);
            }
            return Err(DecodeError::InvalidEncoding);
        }
        Ok(v.0 as usize)
    }
}

/// A `VarInt` read back from its own wire form is itself, whatever follows
/// it on the wire; its wire form has as many bytes as its size says, between
/// one and five.
pub proof fn lemma_varint_round_trip(v: i32, rest: Seq<u8>)
    ensures
        VarInt::encoding(v) matches Ok(w) && VarInt::parse(w + rest) == Ok::<
            (i32, nat),
            DecodeError,
        >((v, w.len())) && VarInt::size(v) == Some(w.len()) && 1 <= w.len() <= 5,
{
    let n = unsigned_value(v as int, 32);
    lemma2_to64();
    lemma_i32_pattern(v, 0);
    lemma_leb128_len_bounds(n);
    lemma_leb128_round_trip(n, rest, 5);
}

/// A `VarLong` read back from its own wire form is itself, whatever follows
/// it on the wire; its wire form has as many bytes as its size says, between
/// one and ten.
pub proof fn lemma_varlong_round_trip(v: i64, rest: Seq<u8>)
    ensures
        VarLong::encoding(v) matches Ok(w) && VarLong::parse(w + rest) == Ok::<
            (i64, nat),
            DecodeError,
        >((v, w.len())) && VarLong::size(v) == Some(w.len()) && 1 <= w.len() <= 10,
{
    let n = unsigned_value(v as int, 64);
    lemma2_to64();
    lemma_i64_pattern(v, 0);
    lemma_leb128_len_bounds(n);
    lemma_leb128_round_trip(n, rest, 10);
    assert(n % 0x1_0000_0000_0000_0000 == n);
}

/// Five bytes that all announce a successor are no `VarInt`.
pub proof fn lemma_varint_overrun(s: Seq<u8>)
    requires
        s.len() >= 5,
        forall|i: int| 0 <= i < 5 ==> s[i] >= 128,
    ensures
        VarInt::parse(s) == Err::<(i32, nat), DecodeError>(DecodeError::MalformedVarInt),
{
    lemma_leb128_overrun(s, 5);
}

} // verus!
