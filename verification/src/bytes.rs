//! Little-endian integer encodings shared by the packet header and the
//! variant wire format.
use vstd::prelude::*;

verus! {

/// The two little-endian bytes of `x`.
pub open spec fn le_bytes_u16(x: u16) -> Seq<u8> {
    seq![(x & 0xff) as u8, ((x >> 8) & 0xff) as u8]
}

/// The four little-endian bytes of `x`.
pub open spec fn le_bytes_u32(x: u32) -> Seq<u8> {
    seq![
        (x & 0xff) as u8,
        ((x >> 8) & 0xff) as u8,
        ((x >> 16) & 0xff) as u8,
        ((x >> 24) & 0xff) as u8,
    ]
}

/// The eight little-endian bytes of `x`.
pub open spec fn le_bytes_u64(x: u64) -> Seq<u8> {
    seq![
        (x & 0xff) as u8,
        ((x >> 8) & 0xff) as u8,
        ((x >> 16) & 0xff) as u8,
        ((x >> 24) & 0xff) as u8,
        ((x >> 32) & 0xff) as u8,
        ((x >> 40) & 0xff) as u8,
        ((x >> 48) & 0xff) as u8,
        ((x >> 56) & 0xff) as u8,
    ]
}

/// The `u16` whose little-endian bytes start at `s[i]`.
pub open spec fn u16_at(s: Seq<u8>, i: int) -> u16 {
    ((s[i] as u16) | ((s[i + 1] as u16) << 8)) as u16
}

/// The `u32` whose little-endian bytes start at `s[i]`.
pub open spec fn u32_at(s: Seq<u8>, i: int) -> u32 {
    ((s[i] as u32) | ((s[i + 1] as u32) << 8) | ((s[i + 2] as u32) << 16) | ((s[i + 3] as u32)
        << 24)) as u32
}

/// The `u64` whose little-endian bytes start at `s[i]`.
pub open spec fn u64_at(s: Seq<u8>, i: int) -> u64 {
    ((s[i] as u64) | ((s[i + 1] as u64) << 8) | ((s[i + 2] as u64) << 16) | ((s[i + 3] as u64)
        << 24) | ((s[i + 4] as u64) << 32) | ((s[i + 5] as u64) << 40) | ((s[i + 6] as u64) << 48)
        | ((s[i + 7] as u64) << 56)) as u64
}

proof fn lemma_u16_bits(x: u16)
    ensures
        ((((x & 0xff) as u8) as u16) | ((((x >> 8) & 0xff) as u8) as u16) << 8) == x,
{
    assert(((((x & 0xff) as u8) as u16) | ((((x >> 8) & 0xff) as u8) as u16) << 8) == x)
        by (bit_vector);
}

proof fn lemma_u32_bits(x: u32)
    ensures
        ((((x & 0xff) as u8) as u32) | ((((x >> 8) & 0xff) as u8) as u32) << 8 | ((((x >> 16)
            & 0xff) as u8) as u32) << 16 | ((((x >> 24) & 0xff) as u8) as u32) << 24) == x,
{
    assert(((((x & 0xff) as u8) as u32) | ((((x >> 8) & 0xff) as u8) as u32) << 8 | ((((x >> 16)
        & 0xff) as u8) as u32) << 16 | ((((x >> 24) & 0xff) as u8) as u32) << 24) == x)
        by (bit_vector);
}

proof fn lemma_u64_bits(x: u64)
    ensures
        ((((x & 0xff) as u8) as u64) | ((((x >> 8) & 0xff) as u8) as u64) << 8 | ((((x >> 16)
            & 0xff) as u8) as u64) << 16 | ((((x >> 24) & 0xff) as u8) as u64) << 24 | ((((x
            >> 32) & 0xff) as u8) as u64) << 32 | ((((x >> 40) & 0xff) as u8) as u64) << 40 | ((((x
            >> 48) & 0xff) as u8) as u64) << 48 | ((((x >> 56) & 0xff) as u8) as u64) << 56) == x,
{
    assert(((((x & 0xff) as u8) as u64) | ((((x >> 8) & 0xff) as u8) as u64) << 8 | ((((x >> 16)
        & 0xff) as u8) as u64) << 16 | ((((x >> 24) & 0xff) as u8) as u64) << 24 | ((((x >> 32)
        & 0xff) as u8) as u64) << 32 | ((((x >> 40) & 0xff) as u8) as u64) << 40 | ((((x >> 48)
        & 0xff) as u8) as u64) << 48 | ((((x >> 56) & 0xff) as u8) as u64) << 56) == x)
        by (bit_vector);
}

/// The encodings are little-endian: byte `i` is digit `i` of the number in
/// base 256, least significant first.
pub proof fn lemma_le_digits(a: u16, b: u32, c: u64)
    ensures
        le_bytes_u16(a)[0] as int == a as int % 256,
        le_bytes_u16(a)[1] as int == a as int / 256,
        le_bytes_u32(b)[0] as int == b as int % 256,
        le_bytes_u32(b)[1] as int == (b as int / 0x100) % 256,
        le_bytes_u32(b)[2] as int == (b as int / 0x10000) % 256,
        le_bytes_u32(b)[3] as int == b as int / 0x1000000,
        le_bytes_u64(c)[0] as int == c as int % 256,
        le_bytes_u64(c)[1] as int == (c as int / 0x100) % 256,
        le_bytes_u64(c)[2] as int == (c as int / 0x10000) % 256,
        le_bytes_u64(c)[3] as int == (c as int / 0x1000000) % 256,
        le_bytes_u64(c)[4] as int == (c as int / 0x100000000) % 256,
        le_bytes_u64(c)[5] as int == (c as int / 0x10000000000) % 256,
        le_bytes_u64(c)[6] as int == (c as int / 0x1000000000000) % 256,
        le_bytes_u64(c)[7] as int == c as int / 0x100000000000000,
{
    assert(((a & 0xff) as u8) as u16 == a % 256 && (((a >> 8) & 0xff) as u8) as u16 == a / 256)
        by (bit_vector);
    assert(((b & 0xff) as u8) as u32 == b % 256 && (((b >> 8) & 0xff) as u8) as u32 == (b / 0x100)
        % 256 && (((b >> 16) & 0xff) as u8) as u32 == (b / 0x10000) % 256 && (((b >> 24) & 0xff)
        as u8) as u32 == b / 0x1000000) by (bit_vector);
    assert(((c & 0xff) as u8) as u64 == c % 256 && (((c >> 8) & 0xff) as u8) as u64 == (c / 0x100)
        % 256 && (((c >> 16) & 0xff) as u8) as u64 == (c / 0x10000) % 256 && (((c >> 24) & 0xff)
        as u8) as u64 == (c / 0x1000000) % 256 && (((c >> 32) & 0xff) as u8) as u64 == (c
        / 0x100000000) % 256 && (((c >> 40) & 0xff) as u8) as u64 == (c / 0x10000000000) % 256
        && (((c >> 48) & 0xff) as u8) as u64 == (c / 0x1000000000000) % 256 && (((c >> 56) & 0xff)
        as u8) as u64 == c / 0x100000000000000) by (bit_vector);
}

/// Reading back the little-endian bytes of a `u16` gives the value.
pub proof fn lemma_u16_roundtrip(x: u16, s: Seq<u8>, i: int)
    requires
        0 <= i,
        i + 2 <= s.len(),
        s.subrange(i, i + 2) == le_bytes_u16(x),
    ensures
        u16_at(s, i) == x,
{
    assert(s[i] == s.subrange(i, i + 2)[0]);
    assert(s[i + 1] == s.subrange(i, i + 2)[1]);
    lemma_u16_bits(x);
}

/// Reading back the little-endian bytes of a `u32` gives the value.
pub proof fn lemma_u32_roundtrip(x: u32, s: Seq<u8>, i: int)
    requires
        0 <= i,
        i + 4 <= s.len(),
        s.subrange(i, i + 4) == le_bytes_u32(x),
    ensures
        u32_at(s, i) == x,
{
    let t = s.subrange(i, i + 4);
    assert(s[i] == t[0] && s[i + 1] == t[1] && s[i + 2] == t[2] && s[i + 3] == t[3]);
    lemma_u32_bits(x);
}

/// Reading back the little-endian bytes of a `u64` gives the value.
pub proof fn lemma_u64_roundtrip(x: u64, s: Seq<u8>, i: int)
    requires
        0 <= i,
        i + 8 <= s.len(),
        s.subrange(i, i + 8) == le_bytes_u64(x),
    ensures
        u64_at(s, i) == x,
{
    let t = s.subrange(i, i + 8);
    assert(s[i] == t[0] && s[i + 1] == t[1] && s[i + 2] == t[2] && s[i + 3] == t[3]);
    assert(s[i + 4] == t[4] && s[i + 5] == t[5] && s[i + 6] == t[6] && s[i + 7] == t[7]);
    lemma_u64_bits(x);
}

/// Encoding the `u16` read at `s[i]` gives back the two bytes there.
pub proof fn lemma_u16_bytes_roundtrip(s: Seq<u8>, i: int)
    requires
        0 <= i,
        i + 2 <= s.len(),
    ensures
        le_bytes_u16(u16_at(s, i)) == s.subrange(i, i + 2),
{
    let b0 = s[i];
    let b1 = s[i + 1];
    assert((((b0 as u16) | ((b1 as u16) << 8)) & 0xff) as u8 == b0) by (bit_vector);
    assert(((((b0 as u16) | ((b1 as u16) << 8)) >> 8) & 0xff) as u8 == b1) by (bit_vector);
    assert(le_bytes_u16(u16_at(s, i)) =~= s.subrange(i, i + 2));
}

/// Encoding the `u32` read at `s[i]` gives back the four bytes there.
pub proof fn lemma_u32_bytes_roundtrip(s: Seq<u8>, i: int)
    requires
        0 <= i,
        i + 4 <= s.len(),
    ensures
        le_bytes_u32(u32_at(s, i)) == s.subrange(i, i + 4),
{
    let b0 = s[i];
    let b1 = s[i + 1];
    let b2 = s[i + 2];
    let b3 = s[i + 3];
    let x = u32_at(s, i);
    assert(x == ((b0 as u32) | ((b1 as u32) << 8) | ((b2 as u32) << 16) | ((b3 as u32) << 24)));
    assert({
        let y = (b0 as u32) | ((b1 as u32) << 8) | ((b2 as u32) << 16) | ((b3 as u32) << 24);
        &&& (y & 0xff) as u8 == b0
        &&& ((y >> 8) & 0xff) as u8 == b1
        &&& ((y >> 16) & 0xff) as u8 == b2
        &&& ((y >> 24) & 0xff) as u8 == b3
    }) by (bit_vector);
    assert(le_bytes_u32(x) =~= s.subrange(i, i + 4));
}

/// Append the bytes of `b` to `buf`.
pub fn append_bytes(buf: &mut Vec<u8>, b: &[u8])
    ensures
        final(buf)@ == old(buf)@ + b@,
{
    let ghost start = buf@;
    let mut i: usize = 0;
    while i < b.len()
        invariant
            0 <= i <= b@.len(),
            buf@ == start + b@.take(i as int),
        decreases b@.len() - i,
    {
        buf.push(b[i]);
        i += 1;
        assert(buf@ =~= start + b@.take(i as int));
    }
    assert(b@.take(b@.len() as int) =~= b@);
}

} // verus!
