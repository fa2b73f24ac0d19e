//! Failure kinds of the codec.

use vstd::prelude::*;

verus! {

/// `std::io::Error`, carried through untouched so that a driver can report the
/// failure of its stream in the library's own error types. Nothing is claimed
/// of its contents.
#[verifier::external_type_specification]
#[verifier::external_body]
pub struct ExIoError(std::io::Error);

/// Why an encoding run stopped. Every byte value can be encoded, so the only
/// cause is the stream underneath.
#[derive(Debug)]
pub enum EncodeError {
    /// Reading the input or writing the output failed.
    IoFailure(std::io::Error),
}

/// Why a decoding run stopped.
#[derive(Debug)]
pub enum DecodeError {
    /// The text holds a byte that is neither one of the 64 symbols nor `=`.
    InvalidCharacter,
    /// The length of the text is not a multiple of four.
    InvalidLength,
    /// A `=` stands where padding may not stand: before the last two places
    /// of the text, or before a symbol of the alphabet.
    MalformedPadding,
    /// Reading the input or writing the output failed.
    IoFailure(std::io::Error),
}

} // verus!
