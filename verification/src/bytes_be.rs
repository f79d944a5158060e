//! Big-endian byte encodings of the fixed-width integers that the wire
//! format and the hash engine share.

use vstd::prelude::*;

verus! {

/// The 4-byte big-endian encoding of a 32-bit integer.
pub open spec fn spec_u32_be(x: u32) -> Seq<u8> {
    seq![
        ((x >> 24) & 0xff) as u8,
        ((x >> 16) & 0xff) as u8,
        ((x >> 8) & 0xff) as u8,
        (x & 0xff) as u8,
    ]
}

/// The 32-bit integer read from 4 bytes, big-endian.
pub open spec fn spec_u32_of_be(s: Seq<u8>) -> u32
    recommends
        s.len() == 4,
{
    ((s[0] as u32) << 24) | ((s[1] as u32) << 16) | ((s[2] as u32) << 8) | (s[3] as u32)
}

/// The 8-byte big-endian encoding of a 64-bit integer.
pub open spec fn spec_u64_be(x: u64) -> Seq<u8> {
    seq![
        ((x >> 56) & 0xff) as u8,
        ((x >> 48) & 0xff) as u8,
        ((x >> 40) & 0xff) as u8,
        ((x >> 32) & 0xff) as u8,
        ((x >> 24) & 0xff) as u8,
        ((x >> 16) & 0xff) as u8,
        ((x >> 8) & 0xff) as u8,
        (x & 0xff) as u8,
    ]
}

/// The 64-bit integer read from 8 bytes, big-endian.
pub open spec fn spec_u64_of_be(s: Seq<u8>) -> u64
    recommends
        s.len() == 8,
{
    ((s[0] as u64) << 56) | ((s[1] as u64) << 48) | ((s[2] as u64) << 40) | ((s[3] as u64) << 32)
        | ((s[4] as u64) << 24) | ((s[5] as u64) << 16) | ((s[6] as u64) << 8) | (s[7] as u64)
}

/// Reading back the 4 bytes written for an integer yields that integer.
pub proof fn lemma_u32_be_of_be(x: u32)
    ensures
        spec_u32_of_be(spec_u32_be(x)) == x,
{
    assert((((((x >> 24) & 0xff) as u8) as u32) << 24) | (((((x >> 16) & 0xff) as u8) as u32)
        << 16) | (((((x >> 8) & 0xff) as u8) as u32) << 8) | ((((x & 0xff) as u8) as u32))
        == x) by (bit_vector);
}

/// Reading back the 8 bytes written for an integer yields that integer.
pub proof fn lemma_u64_be_of_be(x: u64)
    ensures
        spec_u64_of_be(spec_u64_be(x)) == x,
{
    assert((((((x >> 56) & 0xff) as u8) as u64) << 56) | (((((x >> 48) & 0xff) as u8) as u64)
        << 48) | (((((x >> 40) & 0xff) as u8) as u64) << 40) | (((((x >> 32) & 0xff) as u8) as u64)
        << 32) | (((((x >> 24) & 0xff) as u8) as u64) << 24) | (((((x >> 16) & 0xff) as u8) as u64)
        << 16) | (((((x >> 8) & 0xff) as u8) as u64) << 8) | ((((x & 0xff) as u8) as u64))
        == x) by (bit_vector);
}

/// Appends the 4-byte big-endian encoding of `x`.
pub fn push_u32_be(w: &mut Vec<u8>, x: u32)
    ensures
        final(w)@ == old(w)@ + spec_u32_be(x),
{
    w.push(((x >> 24) & 0xff) as u8);
    w.push(((x >> 16) & 0xff) as u8);
    w.push(((x >> 8) & 0xff) as u8);
    w.push((x & 0xff) as u8);
    proof {
        assert(w@ =~= old(w)@ + spec_u32_be(x));
    }
}

/// Appends the 8-byte big-endian encoding of `x`.
pub fn push_u64_be(w: &mut Vec<u8>, x: u64)
    ensures
        final(w)@ == old(w)@ + spec_u64_be(x),
{
    w.push(((x >> 56) & 0xff) as u8);
    w.push(((x >> 48) & 0xff) as u8);
    w.push(((x >> 40) & 0xff) as u8);
    w.push(((x >> 32) & 0xff) as u8);
    w.push(((x >> 24) & 0xff) as u8);
    w.push(((x >> 16) & 0xff) as u8);
    w.push(((x >> 8) & 0xff) as u8);
    w.push((x & 0xff) as u8);
    proof {
        assert(w@ =~= old(w)@ + spec_u64_be(x));
    }
}

/// Reads the 4-byte big-endian integer at `pos`.
pub fn read_u32_be(bytes: &[u8], pos: usize) -> (x: u32)
    requires
        pos + 4 <= bytes@.len(),
    ensures
        x == spec_u32_of_be(bytes@.subrange(pos as int, pos as int + 4)),
{
    let b0 = bytes[pos];
    let b1 = bytes[pos + 1];
    let b2 = bytes[pos + 2];
    let b3 = bytes[pos + 3];
    ((b0 as u32) << 24) | ((b1 as u32) << 16) | ((b2 as u32) << 8) | (b3 as u32)
}

/// Reads the 8-byte big-endian integer at `pos`.
pub fn read_u64_be(bytes: &[u8], pos: usize) -> (x: u64)
    requires
        pos + 8 <= bytes@.len(),
    ensures
        x == spec_u64_of_be(bytes@.subrange(pos as int, pos as int + 8)),
{
    let b0 = bytes[pos];
    let b1 = bytes[pos + 1];
    let b2 = bytes[pos + 2];
    let b3 = bytes[pos + 3];
    let b4 = bytes[pos + 4];
    let b5 = bytes[pos + 5];
    let b6 = bytes[pos + 6];
    let b7 = bytes[pos + 7];
    ((b0 as u64) << 56) | ((b1 as u64) << 48) | ((b2 as u64) << 40) | ((b3 as u64) << 32) | ((b4
        as u64) << 24) | ((b5 as u64) << 16) | ((b6 as u64) << 8) | (b7 as u64)
}


/// Writing back the integer read from 4 bytes yields those bytes.
pub proof fn lemma_u32_of_be_be(s: Seq<u8>)
    requires
        s.len() == 4,
    ensures
        spec_u32_be(spec_u32_of_be(s)) == s,
{
    let x = spec_u32_of_be(s);
    let s0 = s[0] as u32;
    let s1 = s[1] as u32;
    let s2 = s[2] as u32;
    let s3 = s[3] as u32;
    assert(((x == (s0 << 24) | (s1 << 16) | (s2 << 8) | s3) && (s0 < 256) && (s1 < 256) && (s2
        < 256) && (s3 < 256)) ==> (s0 == (x >> 24) & 0xff) && (s1 == (x >> 16) & 0xff) && (s2 == (x
        >> 8) & 0xff) && (s3 == x & 0xff)) by (bit_vector);
    assert(spec_u32_be(spec_u32_of_be(s)) =~= s);
}

/// Writing back the integer read from 8 bytes yields those bytes.
pub proof fn lemma_u64_of_be_be(s: Seq<u8>)
    requires
        s.len() == 8,
    ensures
        spec_u64_be(spec_u64_of_be(s)) == s,
{
    let x = spec_u64_of_be(s);
    let s0 = s[0] as u64;
    let s1 = s[1] as u64;
    let s2 = s[2] as u64;
    let s3 = s[3] as u64;
    let s4 = s[4] as u64;
    let s5 = s[5] as u64;
    let s6 = s[6] as u64;
    let s7 = s[7] as u64;
    assert(((x == (s0 << 56) | (s1 << 48) | (s2 << 40) | (s3 << 32) | (s4 << 24) | (s5 << 16) | (s6
        << 8) | s7) && (s0 < 256) && (s1 < 256) && (s2 < 256) && (s3 < 256) && (s4 < 256) && (s5
        < 256) && (s6 < 256) && (s7 < 256)) ==> (s0 == (x >> 56) & 0xff) && (s1 == (x >> 48) & 0xff)
        && (s2 == (x >> 40) & 0xff) && (s3 == (x >> 32) & 0xff) && (s4 == (x >> 24) & 0xff) && (s5
        == (x >> 16) & 0xff) && (s6 == (x >> 8) & 0xff) && (s7 == x & 0xff)) by (bit_vector);
    assert(spec_u64_be(spec_u64_of_be(s)) =~= s);
}

} // verus!
