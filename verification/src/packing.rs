//! The fixed grouping of the codec: three bytes are 24 bits, and the same 24
//! bits are four six-bit indices.

use vstd::prelude::*;

verus! {

/// The number of six-bit indices, and so of data symbols of an alphabet.
pub const DATA_SYMBOLS: usize = 64;

/// The value that four indices combine to, the first in the highest place.
/// Each index is shifted to its place as it is: one above 63 reaches into
/// the places of the indices before it. Only bits 0 to 23 of the value are
/// ever read, and they do not depend on the width it is computed at.
pub open spec fn quad_value(i0: int, i1: int, i2: int, i3: int) -> u64 {
    ((i0 as u64) << 18) | ((i1 as u64) << 12) | ((i2 as u64) << 6) | (i3 as u64)
}

/// Byte `k` (0, 1 or 2) of the three bytes that four indices unpack to:
/// bits 16 to 23, 8 to 15 and 0 to 7 of their combined value.
pub open spec fn quad_byte(i0: int, i1: int, i2: int, i3: int, k: int) -> u8 {
    let v = quad_value(i0, i1, i2, i3);
    if k == 0 {
        ((v >> 16) & 0xff) as u8
    } else if k == 1 {
        ((v >> 8) & 0xff) as u8
    } else {
        (v & 0xff) as u8
    }
}

/// The 24-bit value that three bytes pack to, the first in the highest place.
pub open spec fn triple_value(b0: u8, b1: u8, b2: u8) -> u64 {
    ((b0 as u64) << 16) | ((b1 as u64) << 8) | (b2 as u64)
}

/// Index `k` (0 to 3) of the four six-bit indices that three bytes pack to.
pub open spec fn triple_index(b0: u8, b1: u8, b2: u8, k: int) -> int {
    let v = triple_value(b0, b1, b2);
    if k == 0 {
        ((v >> 18) & 0x3f) as int
    } else if k == 1 {
        ((v >> 12) & 0x3f) as int
    } else if k == 2 {
        ((v >> 6) & 0x3f) as int
    } else {
        (v & 0x3f) as int
    }
}

/// Unpacks four indices into three bytes.
pub fn unpack_quad(i0: usize, i1: usize, i2: usize, i3: usize) -> (bytes: [u8; 3])
    ensures
        bytes[0] == quad_byte(i0 as int, i1 as int, i2 as int, i3 as int, 0),
        bytes[1] == quad_byte(i0 as int, i1 as int, i2 as int, i3 as int, 1),
        bytes[2] == quad_byte(i0 as int, i1 as int, i2 as int, i3 as int, 2),
{
    let v: u64 = ((i0 as u64) << 18) | ((i1 as u64) << 12) | ((i2 as u64) << 6) | (i3 as u64);
    assert(v == quad_value(i0 as int, i1 as int, i2 as int, i3 as int));
    assert((v >> 16) & 0xff < 256 && (v >> 8) & 0xff < 256 && v & 0xff < 256) by (bit_vector);
    [((v >> 16) & 0xff) as u8, ((v >> 8) & 0xff) as u8, (v & 0xff) as u8]
}

/// Packs three bytes into four six-bit indices.
pub fn pack_triple(b0: u8, b1: u8, b2: u8) -> (indices: [usize; 4])
    ensures
        forall|k: int| 0 <= k < 4 ==> indices[k] as int == triple_index(b0, b1, b2, k),
        forall|k: int| 0 <= k < 4 ==> indices[k] < DATA_SYMBOLS,
{
    let v: u64 = ((b0 as u64) << 16) | ((b1 as u64) << 8) | (b2 as u64);
    assert((v >> 18) & 0x3f < 64 && (v >> 12) & 0x3f < 64 && (v >> 6) & 0x3f < 64 && v & 0x3f < 64)
        by (bit_vector);
    [
        ((v >> 18) & 0x3f) as usize,
        ((v >> 12) & 0x3f) as usize,
        ((v >> 6) & 0x3f) as usize,
        (v & 0x3f) as usize,
    ]
}

/// Each index of a packed triple is below 64.
pub proof fn lemma_triple_index_bound(b0: u8, b1: u8, b2: u8, k: int)
    ensures
        0 <= triple_index(b0, b1, b2, k) < DATA_SYMBOLS,
{
    let v = triple_value(b0, b1, b2);
    assert((v >> 18) & 0x3f < 64 && (v >> 12) & 0x3f < 64 && (v >> 6) & 0x3f < 64 && v & 0x3f < 64)
        by (bit_vector);
}

/// Unpacking the four indices of a packed triple gives the triple back.
pub proof fn lemma_unpack_pack(b0: u8, b1: u8, b2: u8)
    ensures
        ({
            let i0 = triple_index(b0, b1, b2, 0);
            let i1 = triple_index(b0, b1, b2, 1);
            let i2 = triple_index(b0, b1, b2, 2);
            let i3 = triple_index(b0, b1, b2, 3);
            &&& quad_byte(i0, i1, i2, i3, 0) == b0
            &&& quad_byte(i0, i1, i2, i3, 1) == b1
            &&& quad_byte(i0, i1, i2, i3, 2) == b2
        }),
{
    let v = triple_value(b0, b1, b2);
    let s0 = (v >> 18) & 0x3f;
    let s1 = (v >> 12) & 0x3f;
    let s2 = (v >> 6) & 0x3f;
    let s3 = v & 0x3f;
    let w = (s0 << 18) | (s1 << 12) | (s2 << 6) | s3;
    assert(w == quad_value(s0 as int, s1 as int, s2 as int, s3 as int));
    assert(((w >> 16) & 0xff) == b0 as u64 && ((w >> 8) & 0xff) == b1 as u64 && (w & 0xff)
        == b2 as u64) by (bit_vector)
        requires
            v == ((b0 as u64) << 16) | ((b1 as u64) << 8) | (b2 as u64),
            s0 == (v >> 18) & 0x3f,
            s1 == (v >> 12) & 0x3f,
            s2 == (v >> 6) & 0x3f,
            s3 == v & 0x3f,
            w == (s0 << 18) | (s1 << 12) | (s2 << 6) | s3,
    ;
}

/// Where all four indices are below 64, their places do not overlap, and
/// the three bytes are the usual regrouping of four times six bits into
/// three times eight.
pub proof fn lemma_quad_byte_six_bit(i0: int, i1: int, i2: int, i3: int)
    requires
        0 <= i0 < DATA_SYMBOLS,
        0 <= i1 < DATA_SYMBOLS,
        0 <= i2 < DATA_SYMBOLS,
        0 <= i3 < DATA_SYMBOLS,
    ensures
        quad_byte(i0, i1, i2, i3, 0) == i0 * 4 + i1 / 16,
        quad_byte(i0, i1, i2, i3, 1) == (i1 % 16) * 16 + i2 / 4,
        quad_byte(i0, i1, i2, i3, 2) == (i2 % 4) * 64 + i3,
{
    let a = i0 as u64;
    let b = i1 as u64;
    let c = i2 as u64;
    let d = i3 as u64;
    let v = (a << 18) | (b << 12) | (c << 6) | d;
    assert(((v >> 16) & 0xff) == a * 4 + b / 16 && ((v >> 8) & 0xff) == (b % 16) * 16 + c / 4 && (v
        & 0xff) == (c % 4) * 64 + d) by (bit_vector)
        requires
            a < 64,
            b < 64,
            c < 64,
            d < 64,
            v == (a << 18) | (b << 12) | (c << 6) | d,
    ;
}

} // verus!
