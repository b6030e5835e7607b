//! Byte-level vocabulary shared by every codec: big-endian numbers and
//! two's-complement conversion, stated over `Seq<u8>` and `nat`.
use vstd::arithmetic::power2::{lemma2_to64, lemma2_to64_rest, pow2};
use vstd::prelude::*;

verus! {

/// The number that the bytes of `s` spell in base 256, most significant
/// byte first.
pub open spec fn be_value(s: Seq<u8>) -> nat
    decreases s.len(),
{
    if s.len() == 0 {
        0
    } else {
        be_value(s.drop_last()) * 256 + s.last() as nat
    }
}

/// The `width` bytes that spell `v` modulo `256^width` in base 256, most
/// significant byte first.
pub open spec fn be_bytes(v: nat, width: nat) -> Seq<u8>
    decreases width,
{
    if width == 0 {
        Seq::empty()
    } else {
        be_bytes(v / 256, (width - 1) as nat).push((v % 256) as u8)
    }
}

/// The two's-complement bit pattern of `v` in `bits` bits, as a number.
pub open spec fn unsigned_value(v: int, bits: nat) -> nat {
    if v >= 0 {
        v as nat
    } else {
        (v + pow2(bits)) as nat
    }
}

/// The signed number whose two's-complement pattern in `bits` bits is `n`.
pub open spec fn signed_value(n: nat, bits: nat) -> int {
    if n < pow2((bits - 1) as nat) {
        n as int
    } else {
        n - pow2(bits)
    }
}

/// `a` is what is left of `b` after some of its leading bytes are dropped.
pub open spec fn is_rest_of(a: Seq<u8>, b: Seq<u8>) -> bool {
    a.len() <= b.len() && a =~= b.skip(b.len() - a.len())
}

/// Dropping bytes twice is dropping their sum.
pub proof fn lemma_skip_skip(s: Seq<u8>, a: nat, b: nat)
    requires
        a + b <= s.len(),
    ensures
        s.skip(a as int).skip(b as int) == s.skip((a + b) as int),
        is_rest_of(s.skip(a as int), s),
{
    assert(s.skip(a as int).skip(b as int) =~= s.skip((a + b) as int));
}

/// A tail of a tail is a tail.
pub proof fn lemma_rest_of_rest(a: Seq<u8>, b: Seq<u8>, c: Seq<u8>)
    requires
        is_rest_of(a, b),
        is_rest_of(b, c),
    ensures
        is_rest_of(a, c),
{
    assert(a =~= c.skip(c.len() - a.len()));
}

/// A buffer that was only appended to, twice, still starts as it did.
pub proof fn lemma_prefix_of_prefix(a: Seq<u8>, b: Seq<u8>, c: Seq<u8>)
    requires
        a.is_prefix_of(b),
        b.is_prefix_of(c),
    ensures
        a.is_prefix_of(c),
{
    assert(a =~= c.subrange(0, a.len() as int));
}

/// `be_bytes` gives exactly `width` bytes.
pub proof fn lemma_be_bytes_len(v: nat, width: nat)
    ensures
        be_bytes(v, width).len() == width,
    decreases width,
{
    if width > 0 {
        lemma_be_bytes_len(v / 256, (width - 1) as nat);
    }
}

/// The number of values that `width` bytes can spell: `256^width`.
pub open spec fn be_limit(width: nat) -> nat
    decreases width,
{
    if width == 0 {
        1
    } else {
        256 * be_limit((width - 1) as nat)
    }
}

/// The limits of the widths that the codecs use.
pub proof fn lemma_be_limits()
    ensures
        be_limit(1) == 0x100,
        be_limit(2) == 0x1_0000,
        be_limit(4) == 0x1_0000_0000,
        be_limit(8) == 0x1_0000_0000_0000_0000,
        be_limit(16) == 0x1_0000_0000_0000_0000_0000_0000_0000_0000,
{
    reveal_with_fuel(be_limit, 17);
}

/// Bytes spell a number below the limit of their width.
pub proof fn lemma_be_value_bound(s: Seq<u8>)
    ensures
        be_value(s) < be_limit(s.len()),
    decreases s.len(),
{
    if s.len() > 0 {
        lemma_be_value_bound(s.drop_last());
    }
}

/// A number below the limit of a width is read back from its bytes.
pub proof fn lemma_be_value_of_bytes(v: nat, width: nat)
    requires
        v < be_limit(width),
    ensures
        be_value(be_bytes(v, width)) == v,
    decreases width,
{
    if width > 0 {
        let front = be_bytes(v / 256, (width - 1) as nat);
        lemma_be_value_of_bytes(v / 256, (width - 1) as nat);
        assert(be_bytes(v, width).drop_last() =~= front);
    }
}

/// Bytes are written back from the number they spell.
pub proof fn lemma_be_bytes_of_value(s: Seq<u8>)
    ensures
        be_bytes(be_value(s), s.len()) == s,
    decreases s.len(),
{
    if s.len() > 0 {
        lemma_be_bytes_of_value(s.drop_last());
        let v = be_value(s);
        assert(v / 256 == be_value(s.drop_last()));
        assert(v % 256 == s.last());
        assert(be_bytes(v, s.len()) =~= s);
    } else {
        assert(be_bytes(be_value(s), s.len()) =~= s);
    }
}

/// The two's-complement pattern of a number and the number of a pattern
/// undo each other, for the widths that the codecs use.
pub proof fn lemma_signed_unsigned(v: int, n: nat, bits: nat)
    requires
        bits == 8 || bits == 16 || bits == 32 || bits == 64,
    ensures
        -pow2((bits - 1) as nat) <= v < pow2((bits - 1) as nat) ==> unsigned_value(v, bits) < pow2(
            bits,
        ),
        -pow2((bits - 1) as nat) <= v < pow2((bits - 1) as nat) ==> signed_value(
            unsigned_value(v, bits),
            bits,
        ) == v,
        n < pow2(bits) ==> unsigned_value(signed_value(n, bits), bits) == n && -pow2(
            (bits - 1) as nat,
        ) <= signed_value(n, bits) < pow2((bits - 1) as nat),
        pow2(8) == be_limit(1),
        pow2(16) == be_limit(2),
        pow2(32) == be_limit(4),
        pow2(64) == be_limit(8),
        pow2(7) == 0x80,
        pow2(15) == 0x8000,
        pow2(31) == 0x8000_0000,
        pow2(63) == 0x8000_0000_0000_0000,
{
    lemma2_to64();
    lemma2_to64_rest();
    lemma_be_limits();
}

/// The signed number that the low `bits` bits of `n` spell.
pub open spec fn wrapped_signed(n: nat, bits: nat) -> int {
    signed_value(n % pow2(bits), bits)
}

/// Casting between `i32` and the unsigned types keeps the bit pattern.
pub proof fn lemma_i32_pattern(v: i32, n: u64)
    ensures
        (v as u32) as nat == unsigned_value(v as int, 32),
        (n as i32) as int == wrapped_signed(n as nat, 32),
        wrapped_signed(unsigned_value(v as int, 32), 32) == v,
{
    lemma2_to64();
    assert(v >= 0 ==> (v as u32) == v) by (bit_vector);
    assert(v < 0 ==> (v as u32) == v + 0x1_0000_0000) by (bit_vector);
    assert(n % 0x1_0000_0000 < 0x8000_0000 ==> (n as i32) == n % 0x1_0000_0000) by (bit_vector);
    assert(n % 0x1_0000_0000 >= 0x8000_0000 ==> (n as i32) == n % 0x1_0000_0000 - 0x1_0000_0000)
        by (bit_vector);
}

/// Casting between `i64` and `u64` keeps the bit pattern.
pub proof fn lemma_i64_pattern(v: i64, n: u64)
    ensures
        (v as u64) as nat == unsigned_value(v as int, 64),
        (n as i64) as int == signed_value(n as nat, 64),
        signed_value(unsigned_value(v as int, 64), 64) == v,
{
    lemma2_to64();
    lemma2_to64_rest();
    assert(v >= 0 ==> (v as u64) == v) by (bit_vector);
    assert(v < 0 ==> (v as u64) == v + 0x1_0000_0000_0000_0000) by (bit_vector);
    assert(n < 0x8000_0000_0000_0000 ==> (n as i64) == n) by (bit_vector);
    assert(n >= 0x8000_0000_0000_0000 ==> (n as i64) == n - 0x1_0000_0000_0000_0000)
        by (bit_vector);
}

} // verus!
