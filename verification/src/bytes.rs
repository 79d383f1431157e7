//! Big-endian byte encodings of the fixed-width integers used by the log
//! and the wire protocol, with their decoders and round-trip lemmas.

use vstd::prelude::*;

verus! {

// ---------------------------------------------------------------------------
// Specification-level encodings
// ---------------------------------------------------------------------------

/// The two big-endian bytes of `x`.
pub open spec fn spec_u16_be(x: u16) -> Seq<u8> {
    seq![((x >> 8) & 0xff) as u8, (x & 0xff) as u8]
}

/// The four big-endian bytes of `x`.
pub open spec fn spec_u32_be(x: u32) -> Seq<u8> {
    seq![
        ((x >> 24) & 0xff) as u8,
        ((x >> 16) & 0xff) as u8,
        ((x >> 8) & 0xff) as u8,
        (x & 0xff) as u8,
    ]
}

/// The eight big-endian bytes of `x`.
pub open spec fn spec_u64_be(x: u64) -> Seq<u8> {
    seq![
        ((x >> 56) & 0xff) as u8,
        ((x >> 48) & 0xff) as u8,
        ((x >> 40) & 0xff) as u8,
        ((x >> 32) & 0xff) as u8,
        ((x >> 24) & 0xff) as u8,
        ((x >> 16) & 0xff) as u8,
        ((x >> 8) & 0xff) as u8,
        (x & 0xff) as u8,
    ]
}

/// The value read back from two big-endian bytes.
pub open spec fn spec_be_to_u16(s: Seq<u8>) -> u16
    recommends
        s.len() == 2,
{
    ((s[0] as u16) << 8) | (s[1] as u16)
}

/// The value read back from four big-endian bytes.
pub open spec fn spec_be_to_u32(s: Seq<u8>) -> u32
    recommends
        s.len() == 4,
{
    ((s[0] as u32) << 24) | ((s[1] as u32) << 16) | ((s[2] as u32) << 8) | (s[3] as u32)
}

/// The value read back from eight big-endian bytes.
pub open spec fn spec_be_to_u64(s: Seq<u8>) -> u64
    recommends
        s.len() == 8,
{
    ((s[0] as u64) << 56) | ((s[1] as u64) << 48) | ((s[2] as u64) << 40) | ((s[3] as u64) << 32)
        | ((s[4] as u64) << 24) | ((s[5] as u64) << 16) | ((s[6] as u64) << 8) | (s[7] as u64)
}

// ---------------------------------------------------------------------------
// Round-trip lemmas
// ---------------------------------------------------------------------------

/// Decoding the big-endian bytes of a `u16` gives the value back.
pub proof fn lemma_u16_be_round_trip(x: u16)
    ensures
        spec_be_to_u16(spec_u16_be(x)) == x,
{
    assert((((((x >> 8) & 0xff) as u8) as u16) << 8) | (((x & 0xff) as u8) as u16) == x)
        by (bit_vector);
}

/// Decoding the big-endian bytes of a `u32` gives the value back.
pub proof fn lemma_u32_be_round_trip(x: u32)
    ensures
        spec_be_to_u32(spec_u32_be(x)) == x,
{
    assert((((((x >> 24) & 0xff) as u8) as u32) << 24) | (((((x >> 16) & 0xff) as u8) as u32)
        << 16) | (((((x >> 8) & 0xff) as u8) as u32) << 8) | (((x & 0xff) as u8) as u32) == x)
        by (bit_vector);
}

/// Decoding the big-endian bytes of a `u64` gives the value back.
pub proof fn lemma_u64_be_round_trip(x: u64)
    ensures
        spec_be_to_u64(spec_u64_be(x)) == x,
{
    assert((((((x >> 56) & 0xff) as u8) as u64) << 56) | (((((x >> 48) & 0xff) as u8) as u64)
        << 48) | (((((x >> 40) & 0xff) as u8) as u64) << 40) | (((((x >> 32) & 0xff) as u8)
        as u64) << 32) | (((((x >> 24) & 0xff) as u8) as u64) << 24) | (((((x >> 16) & 0xff)
        as u8) as u64) << 16) | (((((x >> 8) & 0xff) as u8) as u64) << 8) | (((x & 0xff) as u8)
        as u64) == x) by (bit_vector);
}

// ---------------------------------------------------------------------------
// Executable encoders and decoders
// ---------------------------------------------------------------------------

/// Appends the two big-endian bytes of `x` to `out`.
pub fn push_u16_be(out: &mut Vec<u8>, x: u16)
    ensures
        final(out)@ == old(out)@ + spec_u16_be(x),
{
    out.push(((x >> 8) & 0xff) as u8);
    out.push((x & 0xff) as u8);
    assert(final(out)@ =~= old(out)@ + spec_u16_be(x));
}

/// Appends the four big-endian bytes of `x` to `out`.
pub fn push_u32_be(out: &mut Vec<u8>, x: u32)
    ensures
        final(out)@ == old(out)@ + spec_u32_be(x),
{
    out.push(((x >> 24) & 0xff) as u8);
    out.push(((x >> 16) & 0xff) as u8);
    out.push(((x >> 8) & 0xff) as u8);
    out.push((x & 0xff) as u8);
    assert(final(out)@ =~= old(out)@ + spec_u32_be(x));
}

/// Appends the eight big-endian bytes of `x` to `out`.
pub fn push_u64_be(out: &mut Vec<u8>, x: u64)
    ensures
        final(out)@ == old(out)@ + spec_u64_be(x),
{
    out.push(((x >> 56) & 0xff) as u8);
    out.push(((x >> 48) & 0xff) as u8);
    out.push(((x >> 40) & 0xff) as u8);
    out.push(((x >> 32) & 0xff) as u8);
    out.push(((x >> 24) & 0xff) as u8);
    out.push(((x >> 16) & 0xff) as u8);
    out.push(((x >> 8) & 0xff) as u8);
    out.push((x & 0xff) as u8);
    assert(final(out)@ =~= old(out)@ + spec_u64_be(x));
}

/// Reads a big-endian `u16` from `bytes` at offset `at`.
pub fn read_u16_be(bytes: &[u8], at: usize) -> (r: u16)
    requires
        at + 2 <= bytes@.len(),
    ensures
        r == spec_be_to_u16(bytes@.subrange(at as int, at + 2)),
{
    let b0: u8 = bytes[at];
    let b1: u8 = bytes[at + 1];
    let ghost s = bytes@.subrange(at as int, at + 2);
    assert(s[0] == b0 && s[1] == b1);
    ((b0 as u16) << 8) | (b1 as u16)
}

/// Reads a big-endian `u32` from `bytes` at offset `at`.
pub fn read_u32_be(bytes: &[u8], at: usize) -> (r: u32)
    requires
        at + 4 <= bytes@.len(),
    ensures
        r == spec_be_to_u32(bytes@.subrange(at as int, at + 4)),
{
    let b0: u8 = bytes[at];
    let b1: u8 = bytes[at + 1];
    let b2: u8 = bytes[at + 2];
    let b3: u8 = bytes[at + 3];
    let ghost s = bytes@.subrange(at as int, at + 4);
    assert(s[0] == b0 && s[1] == b1 && s[2] == b2 && s[3] == b3);
    ((b0 as u32) << 24) | ((b1 as u32) << 16) | ((b2 as u32) << 8) | (b3 as u32)
}

/// Reads a big-endian `u64` from `bytes` at offset `at`.
pub fn read_u64_be(bytes: &[u8], at: usize) -> (r: u64)
    requires
        at + 8 <= bytes@.len(),
    ensures
        r == spec_be_to_u64(bytes@.subrange(at as int, at + 8)),
{
    let b0: u8 = bytes[at];
    let b1: u8 = bytes[at + 1];
    let b2: u8 = bytes[at + 2];
    let b3: u8 = bytes[at + 3];
    let b4: u8 = bytes[at + 4];
    let b5: u8 = bytes[at + 5];
    let b6: u8 = bytes[at + 6];
    let b7: u8 = bytes[at + 7];
    let ghost s = bytes@.subrange(at as int, at + 8);
    assert(s[0] == b0 && s[1] == b1 && s[2] == b2 && s[3] == b3 && s[4] == b4 && s[5] == b5
        && s[6] == b6 && s[7] == b7);
    ((b0 as u64) << 56) | ((b1 as u64) << 48) | ((b2 as u64) << 40) | ((b3 as u64) << 32) | ((
    b4 as u64) << 24) | ((b5 as u64) << 16) | ((b6 as u64) << 8) | (b7 as u64)
}

/// Appends `src` to `out`.
pub fn push_bytes(out: &mut Vec<u8>, src: &[u8])
    ensures
        final(out)@ == old(out)@ + src@,
{
    let mut i: usize = 0;
    while i < src.len()
        invariant
            i <= src@.len(),
            out@ == old(out)@ + src@.subrange(0, i as int),
        decreases src@.len() - i,
    {
        out.push(src[i]);
        assert(out@ =~= old(out)@ + src@.subrange(0, i + 1));
        i = i + 1;
    }
    assert(final(out)@ =~= old(out)@ + src@);
}

/// Copies `count` bytes of `src` starting at `at` into a fresh vector.
pub fn copy_range(src: &[u8], at: usize, count: usize) -> (r: Vec<u8>)
    requires
        at + count <= src@.len(),
    ensures
        r@ == src@.subrange(at as int, at + count),
{
    let n: usize = src.len();
    let mut out: Vec<u8> = Vec::new();
    let mut i: usize = 0;
    while i < count
        invariant
            i <= count,
            at + count <= n,
            n == src@.len(),
            out@ == src@.subrange(at as int, at + i),
        decreases count - i,
    {
        out.push(src[at + i]);
        assert(out@ =~= src@.subrange(at as int, at + i + 1));
        i = i + 1;
    }
    out
}

} // verus!
