//! A block position: three signed coordinates packed into 64 bits.
use crate::codec::{DecodeError, EncodeError, Transcodeable};
use crate::codec::lemma_i64_round_trip;
use crate::wire::{lemma_i64_pattern, lemma_signed_unsigned, signed_value, unsigned_value};
use bytes::{Bytes, BytesMut};
use vstd::arithmetic::power2::lemma2_to64;
use vstd::prelude::*;

verus! {

/// A position in the world. On the wire `x` and `z` have 26 bits each and `y`
/// has 12, all in two's complement; `x` sits in the top bits, `y` in the
/// bottom ones.
#[derive(Copy, Clone, Debug, PartialEq, Eq, Structural)]
pub struct Position {
    x: i32,
    y: i32,
    z: i32,
}

/// The 64-bit pattern of a position: each coordinate cut to its field width.
pub open spec fn pack(x: int, y: int, z: int) -> nat {
    ((x % 0x400_0000) * 0x40_0000_0000 + (z % 0x400_0000) * 0x1000 + y % 0x1000) as nat
}

/// The coordinates `(x, y, z)` held in a 64-bit pattern, each field read as
/// two's complement of its width.
pub open spec fn unpack(combo: nat) -> (int, int, int) {
    (
        signed_value((combo / 0x40_0000_0000) % 0x400_0000, 26),
        signed_value(combo % 0x1000, 12),
        signed_value((combo / 0x1000) % 0x400_0000, 26),
    )
}

/// Coordinates within the field widths survive packing and unpacking.
pub proof fn lemma_position_round_trip(x: int, y: int, z: int)
    requires
        -0x200_0000 <= x < 0x200_0000,
        -0x800 <= y < 0x800,
        -0x200_0000 <= z < 0x200_0000,
    ensures
        pack(x, y, z) < 0x1_0000_0000_0000_0000,
        unpack(pack(x, y, z)) == (x, y, z),
{
    lemma2_to64();
    let a = x % 0x400_0000;
    let b = z % 0x400_0000;
    let c = y % 0x1000;
    let combo = pack(x, y, z);
    assert(combo == a * 0x40_0000_0000 + b * 0x1000 + c);
    assert(combo % 0x1000 == c);
    assert(combo / 0x1000 == a * 0x400_0000 + b);
    assert((combo / 0x1000) % 0x400_0000 == b);
    assert(combo / 0x40_0000_0000 == a);
}

/// A position with coordinates within the field widths, read back from its
/// own wire form, is itself, whatever follows it on the wire.
pub proof fn lemma_position_wire_round_trip(x: int, y: int, z: int, rest: Seq<u8>)
    requires
        -0x200_0000 <= x < 0x200_0000,
        -0x800 <= y < 0x800,
        -0x200_0000 <= z < 0x200_0000,
    ensures
        Position::encoding((x, y, z)) matches Ok(w) && Position::parse(w + rest) == Ok::<
            ((int, int, int), nat),
            DecodeError,
        >(((x, y, z), w.len())),
{
    lemma_position_round_trip(x, y, z);
    crate::wire::lemma_be_limits();
    lemma_signed_unsigned(0, pack(x, y, z), 64);
    lemma_i64_round_trip(signed_value(pack(x, y, z), 64) as i64, rest);
}

impl View for Position {
    type V = (int, int, int);

    closed spec fn view(&self) -> (int, int, int) {
        (self.x as int, self.y as int, self.z as int)
    }
}

impl Position {
    pub fn new(x: i32, y: i32, z: i32) -> (p: Position)
        ensures
            p@ == (x as int, y as int, z as int),
    {
        Position { x, y, z }
    }

    pub fn x(&self) -> (x: i32)
        ensures
            x == self@.0,
    {
        self.x
    }

    pub fn y(&self) -> (y: i32)
        ensures
            y == self@.1,
    {
        self.y
    }

    pub fn z(&self) -> (z: i32)
        ensures
            z == self@.2,
    {
        self.z
    }
}

impl Transcodeable for Position {
    /// The packed pattern as a 64-bit big-endian integer.
    open spec fn encoding(v: (int, int, int)) -> Result<Seq<u8>, EncodeError> {
        i64::encoding(signed_value(pack(v.0, v.1, v.2), 64) as i64)
    }

    /// A 64-bit big-endian integer, unpacked.
    open spec fn parse(s: Seq<u8>) -> Result<((int, int, int), nat), DecodeError> {
        match i64::parse(s) {
            Ok((combo, n)) => Ok((unpack(unsigned_value(combo as int, 64)), n)),
            Err(e) => Err(e),
        }
    }

    proof fn lemma_parse_in_bounds(s: Seq<u8>) {
    }

    fn encode(&self, buf: &mut BytesMut) -> (r: Result<(), EncodeError>) {
        let x = self.x as u64;
        let y = self.y as u64;
        let z = self.z as u64;
        let combo = ((x & 0x3FFFFFF) << 38) | ((z & 0x3FFFFFF) << 12) | (y & 0xFFF);
        proof {
            let (sx, sy, sz) = (self.x, self.y, self.z);
            assert(combo == pack(sx as int, sy as int, sz as int)) by {
                assert((((sx as u64) & 0x3FFFFFF) << 38) | (((sz as u64) & 0x3FFFFFF) << 12) | ((
                sy as u64) & 0xFFF) == ((sx as u64) & 0x3FFFFFF) * 0x40_0000_0000 + ((sz as u64)
                    & 0x3FFFFFF) * 0x1000 + ((sy as u64) & 0xFFF)) by (bit_vector);
                lemma_field_bits(sx);
                lemma_field_bits(sy);
                lemma_field_bits(sz);
            }
            lemma_i64_pattern(0, combo);
        }
        (combo as i64).encode(buf)
    }

    fn decode(buf: &mut Bytes) -> (r: Result<Self, DecodeError>) {
        let packed = i64::decode(buf)?;
        let combo = packed as u64;
        let mut x = (combo >> 38) as i32;
        let mut y = (combo & 0xFFF) as i32;
        let mut z = (combo << 26 >> 38) as i32;
        proof {
            lemma_i64_pattern(packed, 0);
            lemma2_to64();
            assert(combo >> 38 == combo / 0x40_0000_0000 && (combo >> 38) < 0x400_0000) by (bit_vector);
            assert(combo & 0xFFF == combo % 0x1000) by (bit_vector);
            assert(combo << 26 >> 38 == (combo / 0x1000) % 0x400_0000) by (bit_vector);
            assert(((combo >> 38) as i32) == (combo >> 38)) by (bit_vector);
            assert(((combo & 0xFFF) as i32) == (combo & 0xFFF)) by (bit_vector);
            assert(((combo << 26 >> 38) as i32) == (combo << 26 >> 38)) by (bit_vector);
        }
        if x >= 0x200_0000 {
            x -= 0x400_0000;
        }
        if y >= 0x800 {
            y -= 0x1000;
        }
        if z >= 0x200_0000 {
            z -= 0x400_0000;
        }
        Ok(Position { x, y, z })
    }

    open spec fn size(v: (int, int, int)) -> Option<nat> {
        Some(8)
    }

    proof fn lemma_size_is_exact(v: (int, int, int)) {
        i64::lemma_size_is_exact(signed_value(pack(v.0, v.1, v.2), 64) as i64);
    }

    fn size_hint(&self) -> (r: Option<usize>) {
        Some(8)
    }
}

/// Masking the sign-extended pattern of a coordinate keeps the coordinate
/// modulo the field width.
proof fn lemma_field_bits(v: i32)
    ensures
        ((v as u64) & 0x3FFFFFF) == v as int % 0x400_0000,
        ((v as u64) & 0xFFF) == v as int % 0x1000,
{
    assert(v >= 0 ==> ((v as u64) & 0x3FFFFFF) == (v as u64) % 0x400_0000 && (v as u64) == v)
        by (bit_vector);
    assert(v >= 0 ==> ((v as u64) & 0xFFF) == (v as u64) % 0x1000) by (bit_vector);
    assert(v < 0 ==> ((v as u64) & 0x3FFFFFF) == ((v + 0x1_0000_0000) as u64) % 0x400_0000)
        by (bit_vector);
    assert(v < 0 ==> ((v as u64) & 0xFFF) == ((v + 0x1_0000_0000) as u64) % 0x1000)
        by (bit_vector);
}

} // verus!
