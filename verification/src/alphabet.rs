//! The Base64 alphabet of RFC 4648 and its inverse.

use vstd::prelude::*;
use crate::error::DecodeError;

verus! {

/// The padding sign `=`, as its ASCII code.
pub const PAD: u8 = 61;

/// What the inverse table holds for a byte that is no symbol of the alphabet.
pub const SENTINEL: u8 = 255;

/// The 64 symbols, each at the index it stands for.
pub const SYMBOLS: [u8; 64] = [
    65, 66, 67, 68, 69, 70, 71, 72, 73, 74, 75, 76, 77, 78, 79, 80,
    81, 82, 83, 84, 85, 86, 87, 88, 89, 90, 97, 98, 99, 100, 101, 102,
    103, 104, 105, 106, 107, 108, 109, 110, 111, 112, 113, 114, 115, 116, 117, 118,
    119, 120, 121, 122, 48, 49, 50, 51, 52, 53, 54, 55, 56, 57, 43, 47,
];

/// For every byte, the six-bit value it stands for, or `SENTINEL`.
pub const VALUES: [u8; 256] = [
    255, 255, 255, 255, 255, 255, 255, 255, 255, 255, 255, 255, 255, 255, 255, 255,
    255, 255, 255, 255, 255, 255, 255, 255, 255, 255, 255, 255, 255, 255, 255, 255,
    255, 255, 255, 255, 255, 255, 255, 255, 255, 255, 255, 62, 255, 255, 255, 63,
    52, 53, 54, 55, 56, 57, 58, 59, 60, 61, 255, 255, 255, 255, 255, 255,
    255, 0, 1, 2, 3, 4, 5, 6, 7, 8, 9, 10, 11, 12, 13, 14,
    15, 16, 17, 18, 19, 20, 21, 22, 23, 24, 25, 255, 255, 255, 255, 255,
    255, 26, 27, 28, 29, 30, 31, 32, 33, 34, 35, 36, 37, 38, 39, 40,
    41, 42, 43, 44, 45, 46, 47, 48, 49, 50, 51, 255, 255, 255, 255, 255,
    255, 255, 255, 255, 255, 255, 255, 255, 255, 255, 255, 255, 255, 255, 255, 255,
    255, 255, 255, 255, 255, 255, 255, 255, 255, 255, 255, 255, 255, 255, 255, 255,
    255, 255, 255, 255, 255, 255, 255, 255, 255, 255, 255, 255, 255, 255, 255, 255,
    255, 255, 255, 255, 255, 255, 255, 255, 255, 255, 255, 255, 255, 255, 255, 255,
    255, 255, 255, 255, 255, 255, 255, 255, 255, 255, 255, 255, 255, 255, 255, 255,
    255, 255, 255, 255, 255, 255, 255, 255, 255, 255, 255, 255, 255, 255, 255, 255,
    255, 255, 255, 255, 255, 255, 255, 255, 255, 255, 255, 255, 255, 255, 255, 255,
    255, 255, 255, 255, 255, 255, 255, 255, 255, 255, 255, 255, 255, 255, 255, 255,
];

/// The symbol that stands for the six-bit value `v`: `A`-`Z` for 0 to 25,
/// `a`-`z` for 26 to 51, `0`-`9` for 52 to 61, then `+` and `/`. In ASCII
/// the three ranges begin at 65, 97 and 48; `+` is 43 and `/` is 47.
pub open spec fn symbol(v: u8) -> u8
    recommends
        v < 64,
{
    if v < 26 {
        (65 + v) as u8
    } else if v < 52 {
        (97 + (v - 26)) as u8
    } else if v < 62 {
        (48 + (v - 52)) as u8
    } else if v == 62 {
        43
    } else {
        47
    }
}

/// Whether `c` is one of the 64 symbols.
pub open spec fn is_data(c: u8) -> bool {
    ||| 65 <= c <= 90
    ||| 97 <= c <= 122
    ||| 48 <= c <= 57
    ||| c == 43
    ||| c == 47
}

/// Whether `c` may occur in Base64 text at all: a symbol or the padding sign.
pub open spec fn is_symbol(c: u8) -> bool {
    is_data(c) || c == PAD
}

/// The six-bit value that the symbol `c` stands for.
pub open spec fn sextet(c: u8) -> u8
    recommends
        is_data(c),
{
    if 65 <= c <= 90 {
        (c - 65) as u8
    } else if 97 <= c <= 122 {
        (c - 97 + 26) as u8
    } else if 48 <= c <= 57 {
        (c - 48 + 52) as u8
    } else if c == 43 {
        62
    } else {
        63
    }
}

/// The character for a six-bit value, looked up in the alphabet table.
pub fn byte_to_char(b: usize) -> (c: char)
    requires
        b < 64,
    ensures
        c == symbol(b as u8) as char,
{
    let s: u8 = SYMBOLS[b];
    s as char
}

/// The six-bit value of a symbol, looked up in the inverse table. Any other
/// byte, the padding sign included, is refused.
pub fn decode_byte(c: u8) -> (r: Result<u8, DecodeError>)
    ensures
        is_data(c) ==> r == Ok::<u8, DecodeError>(sextet(c)),
        !is_data(c) ==> r == Err::<u8, DecodeError>(DecodeError::InvalidCharacter),
{
    let value: u8 = VALUES[c as usize];
    if value == SENTINEL {
        Err(DecodeError::InvalidCharacter)
    } else {
        Ok(value)
    }
}

} // verus!
