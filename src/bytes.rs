//! Fixed-width integers as they appear in the device's byte streams.

use vstd::prelude::*;

verus! {

/// The value of two bytes read in big-endian order.
pub open spec fn be_u16(b: Seq<u8>) -> u16
    recommends
        b.len() >= 2,
{
    (b[0] as int * 0x100 + b[1] as int) as u16
}

/// The value of four bytes read in big-endian order.
pub open spec fn be_u32(b: Seq<u8>) -> u32
    recommends
        b.len() >= 4,
{
    (b[0] as int * 0x100_0000 + b[1] as int * 0x1_0000 + b[2] as int * 0x100 + b[3] as int) as u32
}

/// The value of four bytes read in little-endian order.
pub open spec fn le_u32(b: Seq<u8>) -> u32
    recommends
        b.len() >= 4,
{
    be_u32(seq![b[3], b[2], b[1], b[0]])
}

/// The two bytes of `v`, most significant first.
pub open spec fn be_u16_bytes(v: u16) -> Seq<u8> {
    seq![(v / 0x100) as u8, (v % 0x100) as u8]
}

/// The four bytes of `v`, most significant first.
pub open spec fn be_u32_bytes(v: u32) -> Seq<u8> {
    seq![
        (v / 0x100_0000) as u8,
        (v / 0x1_0000 % 0x100) as u8,
        (v / 0x100 % 0x100) as u8,
        (v % 0x100) as u8,
    ]
}

/// The four bytes of `v`, least significant first.
pub open spec fn le_u32_bytes(v: u32) -> Seq<u8> {
    seq![
        (v % 0x100) as u8,
        (v / 0x100 % 0x100) as u8,
        (v / 0x1_0000 % 0x100) as u8,
        (v / 0x100_0000) as u8,
    ]
}

/// The eight bytes of `v`, most significant first.
pub open spec fn be_u64_bytes(v: u64) -> Seq<u8> {
    be_u32_bytes((v / 0x1_0000_0000) as u32) + be_u32_bytes((v % 0x1_0000_0000) as u32)
}

pub fn u16_from_be(b: &[u8]) -> (r: u16)
    requires
        b@.len() >= 2,
    ensures
        r == be_u16(b@),
{
    (b[0] as u16) * 0x100 + (b[1] as u16)
}

pub fn u32_from_be(b: &[u8]) -> (r: u32)
    requires
        b@.len() >= 4,
    ensures
        r == be_u32(b@),
{
    (b[0] as u32) * 0x100_0000 + (b[1] as u32) * 0x1_0000 + (b[2] as u32) * 0x100 + (b[3] as u32)
}

pub fn u32_from_le(b: &[u8]) -> (r: u32)
    requires
        b@.len() >= 4,
    ensures
        r == le_u32(b@),
{
    (b[3] as u32) * 0x100_0000 + (b[2] as u32) * 0x1_0000 + (b[1] as u32) * 0x100 + (b[0] as u32)
}

pub fn u16_to_be(v: u16) -> (r: [u8; 2])
    ensures
        r@ == be_u16_bytes(v),
{
    let r = [(v / 0x100) as u8, (v % 0x100) as u8];
    assert(r@ =~= be_u16_bytes(v));
    r
}

pub fn u32_to_be(v: u32) -> (r: [u8; 4])
    ensures
        r@ == be_u32_bytes(v),
{
    let r = [(v / 0x100_0000) as u8, (v / 0x1_0000 % 0x100) as u8, (v / 0x100 % 0x100) as u8, (v % 0x100) as u8];
    assert(r@ =~= be_u32_bytes(v));
    r
}

pub fn u32_to_le(v: u32) -> (r: [u8; 4])
    ensures
        r@ == le_u32_bytes(v),
{
    let r = [(v % 0x100) as u8, (v / 0x100 % 0x100) as u8, (v / 0x1_0000 % 0x100) as u8, (v / 0x100_0000) as u8];
    assert(r@ =~= le_u32_bytes(v));
    r
}

pub fn u64_to_be(v: u64) -> (r: [u8; 8])
    ensures
        r@ == be_u64_bytes(v),
{
    let hi = u32_to_be((v / 0x1_0000_0000) as u32);
    let lo = u32_to_be((v % 0x1_0000_0000) as u32);
    let r = [hi[0], hi[1], hi[2], hi[3], lo[0], lo[1], lo[2], lo[3]];
    assert(r@ =~= be_u64_bytes(v));
    r
}

/// Reading back the bytes of a 16-bit value gives the value.
pub proof fn lemma_be_u16_round_trip(v: u16)
    ensures
        be_u16(be_u16_bytes(v)) == v,
{
}

/// Reading back the bytes of a 32-bit value gives the value.
pub proof fn lemma_be_u32_round_trip(v: u32)
    ensures
        be_u32(be_u32_bytes(v)) == v,
{
}

/// Writing out the value of two bytes gives the bytes back.
pub proof fn lemma_be_u16_bytes_of_value(b: Seq<u8>)
    requires
        b.len() == 2,
    ensures
        be_u16_bytes(be_u16(b)) == b,
{
    assert(be_u16_bytes(be_u16(b)) =~= b);
}

/// Writing out the value of four bytes gives the bytes back.
pub proof fn lemma_be_u32_bytes_of_value(b: Seq<u8>)
    requires
        b.len() == 4,
    ensures
        be_u32_bytes(be_u32(b)) == b,
{
    let (b0, b1, b2, b3) = (b[0] as int, b[1] as int, b[2] as int, b[3] as int);
    let x = b0 * 0x100_0000 + b1 * 0x1_0000 + b2 * 0x100 + b3;
    assert(x / 0x100_0000 == b0 && x / 0x1_0000 % 0x100 == b1 && x / 0x100 % 0x100 == b2 && x
        % 0x100 == b3) by (nonlinear_arith)
        requires
            x == b0 * 0x100_0000 + b1 * 0x1_0000 + b2 * 0x100 + b3,
            0 <= b0 < 0x100,
            0 <= b1 < 0x100,
            0 <= b2 < 0x100,
            0 <= b3 < 0x100,
    ;
    assert(be_u32_bytes(be_u32(b)) =~= b);
}

} // verus!
