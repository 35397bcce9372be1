//! Little-endian byte packing for the fixed-width scalars: two's-complement
//! representatives for the signed widths, and executable helpers that append
//! or read the packed bytes.

use vstd::prelude::*;
use vstd::bytes::*;

verus! {

/// The one-byte little-endian form of `x`.
pub open spec fn spec_u8_to_le_bytes(x: u8) -> Seq<u8> {
    seq![x]
}

/// The value of a one-byte little-endian buffer.
pub open spec fn spec_u8_from_le_bytes(s: Seq<u8>) -> u8
    recommends
        s.len() == 1,
{
    s[0]
}

/// The unsigned 8-bit two's-complement representative of `n`.
pub open spec fn i8_rep(n: int) -> u8
    recommends
        -0x80 <= n < 0x80,
{
    if n >= 0 {
        n as u8
    } else {
        (n + 0x100) as u8
    }
}

/// The signed value of an unsigned 8-bit two's-complement representative.
pub open spec fn i8_val(u: u8) -> int {
    if u < 0x80 {
        u as int
    } else {
        u - 0x100
    }
}

/// The unsigned 16-bit two's-complement representative of `n`.
pub open spec fn i16_rep(n: int) -> u16
    recommends
        -0x8000 <= n < 0x8000,
{
    if n >= 0 {
        n as u16
    } else {
        (n + 0x1_0000) as u16
    }
}

/// The signed value of an unsigned 16-bit two's-complement representative.
pub open spec fn i16_val(u: u16) -> int {
    if u < 0x8000 {
        u as int
    } else {
        u - 0x1_0000
    }
}

/// The unsigned 32-bit two's-complement representative of `n`.
pub open spec fn i32_rep(n: int) -> u32
    recommends
        -0x8000_0000 <= n < 0x8000_0000,
{
    if n >= 0 {
        n as u32
    } else {
        (n + 0x1_0000_0000) as u32
    }
}

/// The signed value of an unsigned 32-bit two's-complement representative.
pub open spec fn i32_val(u: u32) -> int {
    if u < 0x8000_0000 {
        u as int
    } else {
        u - 0x1_0000_0000
    }
}

/// The unsigned 64-bit two's-complement representative of `n`.
pub open spec fn i64_rep(n: int) -> u64
    recommends
        -0x8000_0000_0000_0000 <= n < 0x8000_0000_0000_0000,
{
    if n >= 0 {
        n as u64
    } else {
        (n + 0x1_0000_0000_0000_0000) as u64
    }
}

/// The signed value of an unsigned 64-bit two's-complement representative.
pub open spec fn i64_val(u: u64) -> int {
    if u < 0x8000_0000_0000_0000 {
        u as int
    } else {
        u - 0x1_0000_0000_0000_0000
    }
}

/// The two-byte form is two bytes long, and reading it back gives `x`.
pub proof fn lemma_u16_le(x: u16)
    ensures
        spec_u16_to_le_bytes(x).len() == 2,
        spec_u16_from_le_bytes(spec_u16_to_le_bytes(x)) == x,
{
    lemma_auto_spec_u16_to_from_le_bytes();
    assert(spec_u16_to_le_bytes(x).len() == 2);
}

/// The four-byte form is four bytes long, and reading it back gives `x`.
pub proof fn lemma_u32_le(x: u32)
    ensures
        spec_u32_to_le_bytes(x).len() == 4,
        spec_u32_from_le_bytes(spec_u32_to_le_bytes(x)) == x,
{
    lemma_auto_spec_u32_to_from_le_bytes();
    assert(spec_u32_to_le_bytes(x).len() == 4);
}

/// The eight-byte form is eight bytes long, and reading it back gives `x`.
pub proof fn lemma_u64_le(x: u64)
    ensures
        spec_u64_to_le_bytes(x).len() == 8,
        spec_u64_from_le_bytes(spec_u64_to_le_bytes(x)) == x,
{
    lemma_auto_spec_u64_to_from_le_bytes();
    assert(spec_u64_to_le_bytes(x).len() == 8);
}

/// Packing the value read from a two-byte buffer gives the buffer back.
pub proof fn lemma_u16_le_inv(s: Seq<u8>)
    requires
        s.len() == 2,
    ensures
        spec_u16_to_le_bytes(spec_u16_from_le_bytes(s)) == s,
{
    lemma_auto_spec_u16_to_from_le_bytes();
}

/// Packing the value read from a four-byte buffer gives the buffer back.
pub proof fn lemma_u32_le_inv(s: Seq<u8>)
    requires
        s.len() == 4,
    ensures
        spec_u32_to_le_bytes(spec_u32_from_le_bytes(s)) == s,
{
    lemma_auto_spec_u32_to_from_le_bytes();
}

/// Packing the value read from an eight-byte buffer gives the buffer back.
pub proof fn lemma_u64_le_inv(s: Seq<u8>)
    requires
        s.len() == 8,
    ensures
        spec_u64_to_le_bytes(spec_u64_from_le_bytes(s)) == s,
{
    lemma_auto_spec_u64_to_from_le_bytes();
}

/// Appends the one-byte form of `x`.
pub fn put_u8(out: &mut Vec<u8>, x: u8)
    ensures
        final(out)@ == old(out)@ + spec_u8_to_le_bytes(x),
{
    out.push(x);
    proof {
        assert(out@ =~= old(out)@ + spec_u8_to_le_bytes(x));
    }
}

/// Appends the two-byte little-endian form of `x`.
pub fn put_u16(out: &mut Vec<u8>, x: u16)
    ensures
        final(out)@ == old(out)@ + spec_u16_to_le_bytes(x),
{
    let mut bytes = u16_to_le_bytes(x);
    out.append(&mut bytes);
}

/// Appends the four-byte little-endian form of `x`.
pub fn put_u32(out: &mut Vec<u8>, x: u32)
    ensures
        final(out)@ == old(out)@ + spec_u32_to_le_bytes(x),
{
    let mut bytes = u32_to_le_bytes(x);
    out.append(&mut bytes);
}

/// Appends the eight-byte little-endian form of `x`.
pub fn put_u64(out: &mut Vec<u8>, x: u64)
    ensures
        final(out)@ == old(out)@ + spec_u64_to_le_bytes(x),
{
    let mut bytes = u64_to_le_bytes(x);
    out.append(&mut bytes);
}

} // verus!
