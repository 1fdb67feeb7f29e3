//! Big-endian byte encodings of the integers the peer wire format
//! carries: 32-bit lengths, indices and offsets, and 16-bit ports.

use vstd::prelude::*;

verus! {

/// The four big-endian bytes of `x`.
pub open spec fn spec_u32_to_be_bytes(x: u32) -> Seq<u8> {
    seq![
        ((x >> 24) & 0xff) as u8,
        ((x >> 16) & 0xff) as u8,
        ((x >> 8) & 0xff) as u8,
        (x & 0xff) as u8,
    ]
}

/// The value of four big-endian bytes.
pub open spec fn spec_u32_from_be_bytes(s: Seq<u8>) -> u32
    recommends
        s.len() == 4,
{
    ((s[0] as u32) << 24) | ((s[1] as u32) << 16) | ((s[2] as u32) << 8) | (s[3] as u32)
}

/// The value of two big-endian bytes.
pub open spec fn spec_u16_from_be_bytes(s: Seq<u8>) -> u16
    recommends
        s.len() == 2,
{
    ((s[0] as u16) << 8) | (s[1] as u16)
}

/// Writing a `u32` big-endian and reading it back returns the value.
pub proof fn lemma_u32_from_to_be_bytes(x: u32)
    ensures
        spec_u32_to_be_bytes(x).len() == 4,
        spec_u32_from_be_bytes(spec_u32_to_be_bytes(x)) == x,
{
    assert(((x >> 24) & 0xff) < 256 && ((x >> 16) & 0xff) < 256 && ((x >> 8) & 0xff) < 256 && (x
        & 0xff) < 256) by (bit_vector);
    assert(x == ((((x >> 24) & 0xff) as u8 as u32) << 24) | ((((x >> 16) & 0xff) as u8 as u32)
        << 16) | ((((x >> 8) & 0xff) as u8 as u32) << 8) | ((x & 0xff) as u8 as u32))
        by (bit_vector);
}

/// Reading four bytes as a big-endian `u32` and writing the value back
/// returns the same bytes.
pub proof fn lemma_u32_to_from_be_bytes(s: Seq<u8>)
    requires
        s.len() == 4,
    ensures
        spec_u32_to_be_bytes(spec_u32_from_be_bytes(s)) == s,
{
    let x = spec_u32_from_be_bytes(s);
    let s0 = s[0] as u32;
    let s1 = s[1] as u32;
    let s2 = s[2] as u32;
    let s3 = s[3] as u32;
    assert((x == (s0 << 24) | (s1 << 16) | (s2 << 8) | s3 && s0 < 256 && s1 < 256 && s2 < 256 && s3
        < 256) ==> ((x >> 24) & 0xff == s0 && (x >> 16) & 0xff == s1 && (x >> 8) & 0xff == s2 && x
        & 0xff == s3)) by (bit_vector);
    assert(spec_u32_to_be_bytes(spec_u32_from_be_bytes(s)) =~= s);
}

/// Reads a big-endian `u32` out of four bytes.
pub fn u32_from_be(b0: u8, b1: u8, b2: u8, b3: u8) -> (x: u32)
    ensures
        x == spec_u32_from_be_bytes(seq![b0, b1, b2, b3]),
{
    ((b0 as u32) << 24u32) | ((b1 as u32) << 16u32) | ((b2 as u32) << 8u32) | (b3 as u32)
}

/// Reads a big-endian `u16` out of two bytes.
pub fn u16_from_be(b0: u8, b1: u8) -> (x: u16)
    ensures
        x == spec_u16_from_be_bytes(seq![b0, b1]),
{
    ((b0 as u16) << 8u16) | (b1 as u16)
}

/// Appends the four big-endian bytes of `x` to `out`.
pub fn push_u32_be(out: &mut Vec<u8>, x: u32)
    ensures
        final(out)@ == old(out)@ + spec_u32_to_be_bytes(x),
{
    proof {
        assert(((x >> 24) & 0xff) < 256 && ((x >> 16) & 0xff) < 256 && ((x >> 8) & 0xff) < 256 && (
        x & 0xff) < 256) by (bit_vector);
    }
    out.push(((x >> 24u32) & 0xff) as u8);
    out.push(((x >> 16u32) & 0xff) as u8);
    out.push(((x >> 8u32) & 0xff) as u8);
    out.push((x & 0xff) as u8);
    assert(out@ =~= old(out)@ + spec_u32_to_be_bytes(x));
}

} // verus!
