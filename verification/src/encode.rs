//! Bytes to Base64 text.

use vstd::prelude::*;
use vstd::utf8::is_ascii_chars_encode_utf8;
use crate::alphabet::byte_to_char;
use crate::error::EncodeError;
use crate::group::split_chunk;
use crate::model::{as_chars, encoded, encoded_whole, leftover};
use crate::reader::{SliceReader, BUFSIZE};

verus! {

/// Taken on trust from the documentation of `String::push`: afterwards the
/// string is what it was before with `ch` added at its end.
pub assume_specification[ String::push ](s: &mut String, ch: char)
    ensures
        final(s)@ == old(s)@.push(ch),
;

/// The text for the last one or two bytes of a stream: their symbols, filled
/// up to four places with `=`. Nothing for no bytes.
pub fn encode_remainder(remainder: Vec<u8>) -> (s: String)
    requires
        remainder.len() < 3,
    ensures
        s@ == as_chars(encoded(remainder@)),
{
    let mut s = String::new();
    let n: usize = remainder.len();
    if n == 0 {
        return s;
    }
    let a: u8 = remainder[0];
    let b: u8 = if n == 2 { remainder[1] } else { 0 };
    let v = split_chunk(&[a, b, 0]);
    s.push(byte_to_char(v[0]));
    s.push(byte_to_char(v[1]));
    if n == 2 {
        s.push(byte_to_char(v[2]));
    } else {
        s.push('=');
    }
    s.push('=');
    s
}

/// Whether `carry` is what follows the last whole group of `seen`.
spec fn carry_fits(carry: Seq<u8>, seen: Seq<u8>) -> bool {
    carry =~= leftover(seen)
}

/// Takes `block` into a carry that fits the bytes seen before, and appends to
/// `out` the text of every group that the block completes.
fn feed(carry: &mut Vec<u8>, seen: &mut Ghost<Seq<u8>>, block: &[u8], out: &mut Vec<u8>)
    requires
        carry_fits(old(carry)@, old(seen)@),
    ensures
        carry_fits(final(carry)@, final(seen)@),
        final(seen)@ == old(seen)@ + block@,
        final(out)@ == old(out)@ + encoded_whole(final(seen)@).skip(
            encoded_whole(old(seen)@).len() as int,
        ),
{
    let ghost seen0 = seen@;
    let ghost out0 = out@;
    let mut i: usize = 0;
    while i < block.len()
        invariant
            i <= block.len(),
            carry_fits(carry@, seen@),
            seen@ == seen0 + block@.take(i as int),
            out@ == out0 + encoded_whole(seen@).skip(encoded_whole(seen0).len() as int),
            encoded_whole(seen0).len() <= encoded_whole(seen@).len(),
        decreases block.len() - i,
    {
        let b: u8 = block[i];
        let ghost before = seen@;
        proof {
            assert(seen0 + block@.take(i + 1) =~= (seen0 + block@.take(i as int)).push(b));
        }
        carry.push(b);
        *seen = Ghost(before.push(b));
        if carry.len() == 3 {
            let v = split_chunk(&[carry[0], carry[1], carry[2]]);
            out.push(byte_to_char(v[0]) as u8);
            out.push(byte_to_char(v[1]) as u8);
            out.push(byte_to_char(v[2]) as u8);
            out.push(byte_to_char(v[3]) as u8);
            carry.clear();
        }
        i += 1;
    }
    assert(block@.take(block.len() as int) =~= block@);
}

/// The state of an encoding run over a stream that arrives in blocks: the one
/// or two bytes at its end that do not yet fill a group.
pub struct Encoder {
    carry: Vec<u8>,
    seen: Ghost<Seq<u8>>,
}

impl Encoder {
    /// All the bytes taken in so far, in order.
    pub closed spec fn consumed(&self) -> Seq<u8> {
        self.seen@
    }

    /// The bytes held back until the group they belong to is full.
    pub closed spec fn carry(&self) -> Seq<u8> {
        self.carry@
    }

    /// The carry is what follows the last whole group of the bytes taken in.
    #[verifier::type_invariant]
    spec fn wf(&self) -> bool {
        carry_fits(self.carry@, self.seen@)
    }

    /// All the text put out so far: that of the whole groups taken in.
    pub open spec fn emitted(&self) -> Seq<u8> {
        encoded_whole(self.consumed())
    }

    /// An encoder that has taken in nothing.
    pub fn new() -> (e: Self)
        ensures
            e.consumed() == Seq::<u8>::empty(),
            e.carry() == Seq::<u8>::empty(),
    {
        Encoder { carry: Vec::new(), seen: Ghost(Seq::empty()) }
    }

    /// Takes in the next block of the stream and appends to `out` the text of
    /// every group that it completes. The zero, one or two bytes that follow
    /// the last whole group are held back as the carry.
    pub fn update(&mut self, block: &[u8], out: &mut Vec<u8>)
        ensures
            final(self).consumed() == old(self).consumed() + block@,
            final(self).carry() == leftover(final(self).consumed()),
            old(self).emitted().is_prefix_of(final(self).emitted()),
            final(out)@ == old(out)@ + final(self).emitted().skip(old(self).emitted().len() as int),
    {
        let mut state = Encoder::new();
        std::mem::swap(self, &mut state);
        proof {
            use_type_invariant(&state);
        }
        let Encoder { mut carry, mut seen } = state;
        feed(&mut carry, &mut seen, block, out);
        *self = Encoder { carry, seen };
    }

    /// Ends the run: appends to `out` the text for the bytes that were left
    /// over, with its padding, so that all the text for the stream is out.
    pub fn finish(self, out: &mut Vec<u8>)
        ensures
            self.emitted().is_prefix_of(encoded(self.consumed())),
            final(out)@ == old(out)@ + encoded(self.consumed()).skip(self.emitted().len() as int),
    {
        proof {
            use_type_invariant(&self);
        }
        let s = encode_remainder(self.carry);
        let text = s.as_str();
        proof {
            is_ascii_chars_encode_utf8(text@);
        }
        out.extend_from_slice(text.as_bytes());
    }
}

/// Encodes all that `reader` has left and appends the text to `writer`. The
/// data is taken in block by block; the text does not depend on how the
/// reader cuts it.
pub fn encode_stream(reader: SliceReader<'_>, writer: &mut Vec<u8>) -> (r: Result<(), EncodeError>)
    ensures
        r is Ok,
        final(writer)@ == old(writer)@ + encoded(reader.remaining()),
{
    let ghost all = reader.remaining();
    let ghost out0 = writer@;
    let mut source = reader;
    let mut encoder = Encoder::new();
    loop
        invariant
            encoder.consumed() + source.remaining() == all,
            writer@ == out0 + encoder.emitted(),
        ensures
            source.remaining().len() == 0,
        decreases source.remaining().len(),
    {
        let block = source.read(BUFSIZE);
        if block.len() == 0 {
            break ;
        }
        encoder.update(block, writer);
    }
    encoder.finish(writer);
    Ok(())
}

/// The Base64 text for `input`.
pub fn encode(input: &[u8]) -> (r: Result<String, EncodeError>)
    ensures
        match r {
            Ok(s) => s@ == as_chars(encoded(input@)),
            Err(_) => false,
        },
{
    let mut output: Vec<u8> = Vec::new();
    match encode_stream(SliceReader::new(input), &mut output) {
        Ok(()) => {},
        Err(e) => {
            return Err(e);
        },
    }
    let mut s = String::new();
    let mut i: usize = 0;
    while i < output.len()
        invariant
            i <= output.len(),
            s@ == as_chars(output@.take(i as int)),
        decreases output.len() - i,
    {
        s.push(output[i] as char);
        i += 1;
    }
    Ok(s)
}

} // verus!
