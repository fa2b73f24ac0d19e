//! Streaming Base64 (RFC 4648) encoding and decoding, verified with Verus.
//!
//! Bytes become text over the alphabet `A`-`Z`, `a`-`z`, `0`-`9`, `+`, `/`,
//! three bytes to four symbols, with `=` filling up the last group; text
//! becomes bytes again, and is refused if it holds anything else, if its
//! length is no multiple of four, or if its padding is out of place. No line
//! breaks or blanks are tolerated in text.
//!
//! - [`model`] says what the text for given bytes is and what bytes given
//!   text stands for, as functions on sequences; every contract is stated
//!   over it.
//! - [`encode()`] and [`decode()`] work on data in memory.
//! - [`Encoder`] and [`Decoder`] work on a stream that arrives in blocks of
//!   any size and hold no more than the few bytes of an unfinished group. A
//!   driver reads a block, hands it to `update`, writes out what was appended,
//!   and calls `finish` once the stream has ended.
//! - [`encode_stream`] and [`decode_stream`] do the same over a
//!   [`SliceReader`], which hands out data in memory block by block.
//! - [`laws`] holds what is proved of the codec as a whole: that decoding
//!   undoes encoding, which text is refused and why, and that the way a
//!   stream is cut into blocks changes nothing.

pub mod alphabet;
pub mod decode;
pub mod encode;
pub mod error;
pub mod group;
pub mod laws;
pub mod model;
pub mod reader;

pub use alphabet::{byte_to_char, decode_byte};
pub use decode::{decode, decode_stream, Decoder};
pub use encode::{encode, encode_remainder, encode_stream, Encoder};
pub use error::{DecodeError, EncodeError};
pub use group::{coerce_chunk, split_chunk};
pub use reader::{SliceReader, BUFSIZE};
