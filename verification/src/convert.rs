//! Little-endian integer encodings, stated arithmetically.

use vstd::prelude::*;

verus! {

/// The value of four bytes read as an unsigned little-endian integer.
#[verifier::opaque]
pub open spec fn le_u32(b: Seq<u8>) -> nat
    recommends
        b.len() == 4,
{
    (b[0] as nat) + 256 * (b[1] as nat) + 65536 * (b[2] as nat) + 16777216 * (b[3] as nat)
}

/// The four little-endian bytes of `x`, for `0 <= x < 2^32`.
#[verifier::opaque]
pub open spec fn u32_le(x: int) -> Seq<u8> {
    seq![
        (x % 256) as u8,
        ((x / 256) % 256) as u8,
        ((x / 65536) % 256) as u8,
        ((x / 16777216) % 256) as u8,
    ]
}

/// The value of two bytes read as an unsigned little-endian integer.
#[verifier::opaque]
pub open spec fn le_u16(b: Seq<u8>) -> nat
    recommends
        b.len() == 2,
{
    (b[0] as nat) + 256 * (b[1] as nat)
}

/// The two little-endian bytes of `x`, for `0 <= x < 2^16`.
#[verifier::opaque]
pub open spec fn u16_le(x: int) -> Seq<u8> {
    seq![(x % 256) as u8, ((x / 256) % 256) as u8]
}

/// Two's-complement reading of a 32-bit pattern.
pub open spec fn to_signed(x: int) -> int {
    if x < 0x8000_0000 {
        x
    } else {
        x - 0x1_0000_0000
    }
}

/// The 32-bit pattern of a signed value.
pub open spec fn to_unsigned(x: int) -> int {
    if x >= 0 {
        x
    } else {
        x + 0x1_0000_0000
    }
}

/// The four little-endian bytes of a signed 32-bit value.
pub open spec fn i32_le(x: int) -> Seq<u8> {
    u32_le(to_unsigned(x))
}

/// The value of four bytes read as a signed little-endian integer.
pub open spec fn le_i32(b: Seq<u8>) -> int
    recommends
        b.len() == 4,
{
    to_signed(le_u32(b) as int)
}

/// Decoding four bytes and encoding the result gives the bytes back, and
/// the other way round.
pub proof fn lemma_u32_le_roundtrip(x: int, b: Seq<u8>)
    ensures
        u32_le(x).len() == 4,
        0 <= x < 0x1_0000_0000 ==> le_u32(u32_le(x)) == x,
        b.len() == 4 ==> le_u32(b) < 0x1_0000_0000 && u32_le(le_u32(b) as int) =~= b,
{
    reveal(le_u32);
    reveal(u32_le);
}

/// The signed encoding round-trips in both directions.
pub proof fn lemma_i32_le_roundtrip(x: int, b: Seq<u8>)
    ensures
        i32_le(x).len() == 4,
        i32::MIN <= x <= i32::MAX ==> le_i32(i32_le(x)) == x,
        b.len() == 4 ==> i32::MIN <= le_i32(b) <= i32::MAX && i32_le(le_i32(b)) =~= b,
{
    lemma_u32_le_roundtrip(to_unsigned(x), b);
}

/// The 16-bit encoding round-trips in both directions.
pub proof fn lemma_u16_le_roundtrip(x: int, b: Seq<u8>)
    ensures
        u16_le(x).len() == 2,
        0 <= x < 0x1_0000 ==> le_u16(u16_le(x)) == x,
        b.len() == 2 ==> le_u16(b) < 0x1_0000 && u16_le(le_u16(b) as int) =~= b,
{
    reveal(le_u16);
    reveal(u16_le);
}

/// Little-endian bytes of an unsigned 32-bit value.
pub fn u32_to_array(x: u32) -> (r: [u8; 4])
    ensures
        r@ == u32_le(x as int),
{
    let r = [
        (x % 256) as u8,
        ((x / 256) % 256) as u8,
        ((x / 65536) % 256) as u8,
        ((x / 16777216) % 256) as u8,
    ];
    reveal(u32_le);
    assert(r@ =~= u32_le(x as int));
    r
}

/// Little-endian bytes of a signed 32-bit value.
pub fn i32_to_array(x: i32) -> (r: [u8; 4])
    ensures
        r@ == i32_le(x as int),
{
    let u: u32 = if x >= 0 {
        x as u32
    } else {
        ((x + 0x7fff_ffff) + 1) as u32 + 0x8000_0000u32
    };
    u32_to_array(u)
}

/// Little-endian bytes of an unsigned 16-bit value.
pub fn u16_to_array(x: u16) -> (r: [u8; 2])
    ensures
        r@ == u16_le(x as int),
{
    let r = [(x % 256) as u8, ((x / 256) % 256) as u8];
    reveal(u16_le);
    assert(r@ =~= u16_le(x as int));
    r
}

/// Reads the unsigned little-endian integer stored at `pos`.
pub fn u32_from_vec(vec: &Vec<u8>, pos: usize) -> (r: u32)
    requires
        pos + 4 <= vec.len(),
    ensures
        r == le_u32(vec@.subrange(pos as int, pos + 4)),
{
    reveal(le_u32);
    let b0: u32 = vec[pos] as u32;
    let b1: u32 = vec[pos + 1] as u32;
    let b2: u32 = vec[pos + 2] as u32;
    let b3: u32 = vec[pos + 3] as u32;
    b0 + 256 * b1 + 65536 * b2 + 16777216 * b3
}

/// Two's-complement reading of an unsigned 32-bit value.
pub fn u32_to_i32(u: u32) -> (r: i32)
    ensures
        r == to_signed(u as int),
{
    if u < 0x8000_0000 {
        u as i32
    } else {
        ((u - 0x8000_0000) as i32 - 0x7fff_ffff) - 1
    }
}

} // verus!
