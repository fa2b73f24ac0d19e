//! Bit packing between one group of three bytes and its four six-bit values.

use vstd::prelude::*;

verus! {

/// The `k`-th of the four six-bit values that the bytes `a`, `b`, `c` split into.
pub open spec fn sextet_of(a: u8, b: u8, c: u8, k: int) -> u8 {
    if k == 0 {
        a >> 2
    } else if k == 1 {
        ((a & 0x03) << 4) | (b >> 4)
    } else if k == 2 {
        ((b & 0x0f) << 2) | (c >> 6)
    } else {
        c & 0x3f
    }
}

/// The `k`-th of the three bytes that the values `v0` to `v3` join into. Bits
/// shifted past the eighth are dropped.
pub open spec fn octet_of(v0: u8, v1: u8, v2: u8, v3: u8, k: int) -> u8 {
    if k == 0 {
        (v0 << 2) | (v1 >> 4)
    } else if k == 1 {
        (v1 << 4) | (v2 >> 2)
    } else {
        (v2 << 6) | v3
    }
}

/// Splitting three bytes gives four values below 64, and joining those gives
/// the three bytes back.
pub proof fn lemma_split_then_join(a: u8, b: u8, c: u8)
    ensures
        forall|k: int| 0 <= k < 4 ==> #[trigger] sextet_of(a, b, c, k) < 64,
        octet_of(
            sextet_of(a, b, c, 0),
            sextet_of(a, b, c, 1),
            sextet_of(a, b, c, 2),
            sextet_of(a, b, c, 3),
            0,
        ) == a,
        octet_of(
            sextet_of(a, b, c, 0),
            sextet_of(a, b, c, 1),
            sextet_of(a, b, c, 2),
            sextet_of(a, b, c, 3),
            1,
        ) == b,
        octet_of(
            sextet_of(a, b, c, 0),
            sextet_of(a, b, c, 1),
            sextet_of(a, b, c, 2),
            sextet_of(a, b, c, 3),
            2,
        ) == c,
{
    assert(a >> 2 < 64) by (bit_vector);
    assert((((a & 0x03) << 4) | (b >> 4)) < 64) by (bit_vector);
    assert((((b & 0x0f) << 2) | (c >> 6)) < 64) by (bit_vector);
    assert(c & 0x3f < 64) by (bit_vector);
    assert((((a >> 2) << 2) | ((((a & 0x03) << 4) | (b >> 4)) >> 4)) == a) by (bit_vector);
    assert((((((a & 0x03) << 4) | (b >> 4)) << 4) | ((((b & 0x0f) << 2) | (c >> 6)) >> 2)) == b)
        by (bit_vector);
    assert((((((b & 0x0f) << 2) | (c >> 6)) << 6) | (c & 0x3f)) == c) by (bit_vector);
}

/// The four six-bit values of a group of three bytes, in order.
pub fn split_chunk(chunk: &[u8; 3]) -> (r: [usize; 4])
    ensures
        r[0] == sextet_of(chunk[0], chunk[1], chunk[2], 0),
        r[1] == sextet_of(chunk[0], chunk[1], chunk[2], 1),
        r[2] == sextet_of(chunk[0], chunk[1], chunk[2], 2),
        r[3] == sextet_of(chunk[0], chunk[1], chunk[2], 3),
        r[0] < 64 && r[1] < 64 && r[2] < 64 && r[3] < 64,
{
    let a: u8 = chunk[0];
    let b: u8 = chunk[1];
    let c: u8 = chunk[2];
    proof {
        lemma_split_then_join(a, b, c);
    }
    [
        (a >> 2) as usize,
        (((a & 0x03) << 4) | (b >> 4)) as usize,
        (((b & 0x0f) << 2) | (c >> 6)) as usize,
        (c & 0x3f) as usize,
    ]
}

/// The three bytes that four six-bit values join into, in order.
pub fn coerce_chunk(chunk: [u8; 4]) -> (r: [u8; 3])
    ensures
        r[0] == octet_of(chunk[0], chunk[1], chunk[2], chunk[3], 0),
        r[1] == octet_of(chunk[0], chunk[1], chunk[2], chunk[3], 1),
        r[2] == octet_of(chunk[0], chunk[1], chunk[2], chunk[3], 2),
{
    [
        chunk[0] << 2 | chunk[1] >> 4,
        chunk[1] << 4 | chunk[2] >> 2,
        chunk[2] << 6 | chunk[3],
    ]
}

} // verus!
