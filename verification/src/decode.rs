//! Base64 text to bytes.

use vstd::prelude::*;
use crate::alphabet::{decode_byte, is_data, is_symbol, sextet, PAD};
use crate::error::DecodeError;
use crate::group::{coerce_chunk, octet_of};
use crate::model::{
    data_run, decoded, decoded_bytes, decoded_whole, has_invalid, has_misplaced_pad,
    lemma_all_data_no_pad, lemma_data_run, lemma_data_run_take, lemma_decoded_whole_begins,
    lemma_decoded_whole_grows, lemma_decoded_whole_push, lemma_has_invalid_concat,
    lemma_has_invalid_push, pad_in_place, unfinished,
};
use crate::reader::{SliceReader, BUFSIZE};

verus! {

/// The bytes of one group of four symbols, and how many of the symbols come
/// before its first `=`. Places from the first `=` on count as zero bits.
fn decode_group(group: &[u8; 4]) -> (r: ([u8; 3], usize))
    requires
        forall|i: int| 0 <= i < 4 ==> is_symbol(#[trigger] group[i]),
    ensures
        r.1 <= 4,
        forall|i: int| 0 <= i < r.1 ==> is_data(#[trigger] group[i]),
        r.1 < 4 ==> group[r.1 as int] == PAD,
        ({
            let v0 = sextet(group[0]);
            let v1 = sextet(group[1]);
            let v2 = sextet(group[2]);
            let v3 = sextet(group[3]);
            &&& r.1 == 4 ==> {
                &&& r.0[0] == octet_of(v0, v1, v2, v3, 0)
                &&& r.0[1] == octet_of(v0, v1, v2, v3, 1)
                &&& r.0[2] == octet_of(v0, v1, v2, v3, 2)
            }
            &&& r.1 == 3 ==> {
                &&& r.0[0] == octet_of(v0, v1, v2, 0, 0)
                &&& r.0[1] == octet_of(v0, v1, v2, 0, 1)
            }
            &&& r.1 == 2 ==> r.0[0] == octet_of(v0, v1, 0, 0, 0)
        }),
{
    let mut nvalid: usize = 0;
    while nvalid < 4 && group[nvalid] != PAD
        invariant
            nvalid <= 4,
            forall|i: int| 0 <= i < 4 ==> is_symbol(#[trigger] group[i]),
            forall|i: int| 0 <= i < nvalid ==> is_data(#[trigger] group[i]),
        decreases 4 - nvalid,
    {
        nvalid += 1;
    }
    let mut values: [u8; 4] = [0, 0, 0, 0];
    let mut i: usize = 0;
    while i < nvalid
        invariant
            i <= nvalid <= 4,
            forall|k: int| 0 <= k < nvalid ==> is_data(#[trigger] group[k]),
            forall|k: int| 0 <= k < i ==> values[k] == sextet(#[trigger] group[k]),
            forall|k: int| i <= k < 4 ==> #[trigger] values[k] == 0,
        decreases nvalid - i,
    {
        match decode_byte(group[i]) {
            Ok(v) => {
                values[i] = v;
            },
            Err(_) => {},
        }
        i += 1;
    }
    (coerce_chunk(values), nvalid)
}

/// What the flags of a decoder say of the whole groups it has taken in:
/// `sealed`, that padding has occurred; `misplaced`, that some of it is out
/// of place; `held`, the bytes of the padded group that were kept back.
#[verifier::opaque]
spec fn flags_fit(sealed: bool, misplaced: bool, held: Seq<u8>, whole: Seq<u8>) -> bool {
    &&& sealed == (data_run(whole) < whole.len())
    &&& misplaced == has_misplaced_pad(whole)
    &&& !sealed ==> held.len() == 0
    &&& sealed && !misplaced ==> held =~= decoded_bytes(whole).skip(
        decoded_whole(whole).len() as int,
    )
}

/// Before anything is taken in, no flag is set.
proof fn lemma_start()
    ensures
        flags_fit(false, false, Seq::empty(), Seq::empty()),
{
    reveal(flags_fit);
}

/// A byte after which the text is invalid changes nothing that is given out.
proof fn lemma_step_invalid(text: Seq<u8>, c: u8)
    requires
        has_invalid(text) || !is_symbol(c),
    ensures
        has_invalid(text.push(c)),
        decoded_whole(text.push(c)) == decoded_whole(text),
{
    lemma_has_invalid_push(text, c);
    lemma_decoded_whole_push(text, c);
    lemma_data_run(text);
}

/// A symbol that does not fill a group changes neither the whole groups nor
/// what is given out.
proof fn lemma_step_partial(text: Seq<u8>, c: u8)
    requires
        !has_invalid(text),
        is_symbol(c),
        (text.len() + 1) % 4 != 0,
    ensures
        !has_invalid(text.push(c)),
        text.push(c).take(4 * (text.len() as int / 4)) == text.take(4 * (text.len() as int / 4)),
        text.push(c).skip(4 * (text.len() as int / 4)) == text.skip(
            4 * (text.len() as int / 4),
        ).push(c),
        decoded_whole(text.push(c)) == decoded_whole(text),
{
    lemma_decoded_whole_push(text, c);
}

/// A symbol that fills a group: the text is then made of whole groups, the
/// last of which is the carry with the symbol.
proof fn lemma_step_full(text: Seq<u8>, c: u8)
    requires
        !has_invalid(text),
        is_symbol(c),
        (text.len() + 1) % 4 == 0,
    ensures
        !has_invalid(text.push(c)),
        text.push(c).drop_last() == text,
        text.push(c).take(text.len() - 3) == text.take(4 * (text.len() as int / 4)),
        text.push(c).skip(text.len() - 3) == text.skip(4 * (text.len() as int / 4)).push(c),
        forall|k: int| 0 <= k < 4 ==> is_symbol(#[trigger] text.push(c)[text.len() - 3 + k]),
{
}

/// A group that follows padding: the padding is out of place, and nothing
/// more is given out.
proof fn lemma_close_sealed(text: Seq<u8>, misplaced: bool, held: Seq<u8>)
    requires
        text.len() >= 4,
        text.len() % 4 == 0,
        !has_invalid(text),
        flags_fit(true, misplaced, held, text.take(text.len() - 4)),
    ensures
        flags_fit(true, true, held, text),
        decoded_whole(text) == decoded_whole(text.drop_last()),
{
    reveal(flags_fit);
    let m = text.len() - 4;
    let before = text.take(m);
    lemma_data_run(before);
    lemma_data_run_take(text, m);
    let i = data_run(before) as int;
    assert(before[i] == text[i]);
    assert(text[i] == PAD && !pad_in_place(text, i));
}

/// A group of four symbols of the alphabet after text of such symbols only:
/// its three bytes are given out.
proof fn lemma_close_clean(text: Seq<u8>, held: Seq<u8>)
    requires
        text.len() >= 4,
        text.len() % 4 == 0,
        flags_fit(false, false, held, text.take(text.len() - 4)),
        is_data(text[text.len() - 4]),
        is_data(text[text.len() - 3]),
        is_data(text[text.len() - 2]),
        is_data(text[text.len() - 1]),
    ensures
        flags_fit(false, false, held, text),
        decoded_whole(text) == decoded_whole(text.drop_last()) + seq![
            octet_of(
                sextet(text[text.len() - 4]),
                sextet(text[text.len() - 3]),
                sextet(text[text.len() - 2]),
                sextet(text[text.len() - 1]),
                0,
            ),
            octet_of(
                sextet(text[text.len() - 4]),
                sextet(text[text.len() - 3]),
                sextet(text[text.len() - 2]),
                sextet(text[text.len() - 1]),
                1,
            ),
            octet_of(
                sextet(text[text.len() - 4]),
                sextet(text[text.len() - 3]),
                sextet(text[text.len() - 2]),
                sextet(text[text.len() - 1]),
                2,
            ),
        ],
{
    reveal(flags_fit);
    let m = text.len() - 4;
    let front = text.drop_last();
    lemma_data_run(front);
    lemma_data_run_take(text, m);
    lemma_all_data_no_pad(text);
}

/// The bytes that a group with well-placed padding still holds: one if the
/// padding begins at the third place, two if at the fourth.
spec fn kept_back(text: Seq<u8>, nvalid: int) -> Seq<u8> {
    let m = text.len() - 4;
    if nvalid == 2 {
        seq![octet_of(sextet(text[m]), sextet(text[m + 1]), 0, 0, 0)]
    } else {
        seq![
            octet_of(sextet(text[m]), sextet(text[m + 1]), sextet(text[m + 2]), 0, 0),
            octet_of(sextet(text[m]), sextet(text[m + 1]), sextet(text[m + 2]), 0, 1),
        ]
    }
}

/// A group with padding in it after text of symbols of the alphabet only:
/// nothing more is given out, and the group alone decides whether the padding
/// is in place. When it is, the text so far stands for what was given out and
/// the one or two bytes of the group.
proof fn lemma_close_padded(text: Seq<u8>, nvalid: int, before: Seq<u8>, held: Seq<u8>)
    requires
        text.len() >= 4,
        text.len() % 4 == 0,
        !has_invalid(text),
        flags_fit(false, false, before, text.take(text.len() - 4)),
        0 <= nvalid < 4,
        forall|i: int| 0 <= i < nvalid ==> is_data(#[trigger] text[text.len() - 4 + i]),
        text[text.len() - 4 + nvalid] == PAD,
        nvalid >= 2 && text[text.len() - 1] == PAD ==> held == kept_back(text, nvalid),
    ensures
        flags_fit(true, !(nvalid >= 2 && text[text.len() - 1] == PAD), held, text),
        decoded_whole(text) == decoded_whole(text.drop_last()),
{
    reveal(flags_fit);
    let m = text.len() - 4;
    let front = text.drop_last();
    lemma_data_run(text);
    lemma_data_run(front);
    lemma_data_run(text.take(m));
}

/// As long as no padding has occurred, none is out of place and no bytes
/// are kept back.
proof fn lemma_unsealed(misplaced: bool, held: Seq<u8>, whole: Seq<u8>)
    requires
        flags_fit(false, misplaced, held, whole),
    ensures
        !misplaced,
        held == Seq::<u8>::empty(),
{
    reveal(flags_fit);
    lemma_data_run(whole);
}

/// What the text amounts to when it ends, read off the state of the decoder.
proof fn lemma_end(sealed: bool, misplaced: bool, held: Seq<u8>, text: Seq<u8>, carried: int)
    requires
        !has_invalid(text),
        carried == text.len() % 4,
        flags_fit(sealed, misplaced, held, text.take(text.len() - carried)),
    ensures
        carried != 0 ==> decoded(text) == Err::<Seq<u8>, DecodeError>(DecodeError::InvalidLength),
        carried == 0 && misplaced ==> decoded(text) == Err::<Seq<u8>, DecodeError>(
            DecodeError::MalformedPadding,
        ),
        carried == 0 && !misplaced ==> decoded(text) == Ok::<Seq<u8>, DecodeError>(
            decoded_bytes(text),
        ) && held == decoded_bytes(text).skip(decoded_whole(text).len() as int),
{
    reveal(flags_fit);
    if carried == 0 {
        assert(text.take(text.len() as int) =~= text);
        lemma_data_run(text);
    }
}

/// The working state of a decoder: the symbols of the group in progress, the
/// bytes of a padded group that are kept back, what has been found wrong so
/// far, and the text taken in.
struct Run {
    carry: Vec<u8>,
    held: Vec<u8>,
    sealed: bool,
    misplaced: bool,
    invalid: bool,
    seen: Ghost<Seq<u8>>,
}

impl Run {
    /// The flags and buffers say of the text taken in what their names say.
    spec fn wf(&self) -> bool {
        let text = self.seen@;
        let m = 4 * (text.len() as int / 4);
        &&& self.carry@.len() < 4
        &&& self.invalid == has_invalid(text)
        &&& !self.invalid ==> {
            &&& self.carry@ =~= text.skip(m)
            &&& flags_fit(self.sealed, self.misplaced, self.held@, text.take(m))
        }
    }

    /// The state before anything is taken in.
    fn new() -> (d: Self)
        ensures
            d.wf(),
            d.seen@ == Seq::<u8>::empty(),
            d.carry@ == Seq::<u8>::empty(),
    {
        let d = Run {
            carry: Vec::new(),
            held: Vec::new(),
            sealed: false,
            misplaced: false,
            invalid: false,
            seen: Ghost(Seq::empty()),
        };
        proof {
            lemma_start();
        }
        d
    }

    /// Deals with the group that the carry now holds in full.
    fn close_group(&mut self, out: &mut Vec<u8>)
        requires
            old(self).seen@.len() >= 4,
            old(self).seen@.len() % 4 == 0,
            !old(self).invalid,
            !has_invalid(old(self).seen@),
            old(self).carry@ == old(self).seen@.skip(old(self).seen@.len() - 4),
            forall|k: int|
                0 <= k < 4 ==> is_symbol(
                    #[trigger] old(self).seen@[old(self).seen@.len() - 4 + k],
                ),
            flags_fit(
                old(self).sealed,
                old(self).misplaced,
                old(self).held@,
                old(self).seen@.take(old(self).seen@.len() - 4),
            ),
        ensures
            final(self).wf(),
            final(self).seen@ == old(self).seen@,
            final(out)@ == old(out)@ + decoded_whole(old(self).seen@).skip(
                decoded_whole(old(self).seen@.drop_last()).len() as int,
            ),
            decoded_whole(old(self).seen@.drop_last()).is_prefix_of(decoded_whole(old(self).seen@)),
    {
        let ghost text = self.seen@;
        let ghost m = text.len() - 4;
        proof {
            assert(text.take(m + 4) =~= text);
        }
        let group: [u8; 4] = [self.carry[0], self.carry[1], self.carry[2], self.carry[3]];
        self.carry.clear();
        if self.sealed {
            proof {
                lemma_close_sealed(text, self.misplaced, self.held@);
            }
            self.misplaced = true;
            return ;
        }
        proof {
            lemma_unsealed(self.misplaced, self.held@, text.take(m));
        }
        let (bytes, nvalid) = decode_group(&group);
        if nvalid == 4 {
            out.push(bytes[0]);
            out.push(bytes[1]);
            out.push(bytes[2]);
            proof {
                lemma_close_clean(text, self.held@);
            }
        } else {
            let ghost before = self.held@;
            self.sealed = true;
            if nvalid >= 2 && group[3] == PAD {
                self.held.clear();
                self.held.push(bytes[0]);
                if nvalid == 3 {
                    self.held.push(bytes[1]);
                }
                assert(self.held@ =~= kept_back(text, nvalid as int));
            } else {
                self.misplaced = true;
            }
            proof {
                lemma_close_padded(text, nvalid as int, before, self.held@);
            }
        }
    }

    /// Takes in one byte of text.
    fn absorb(&mut self, c: u8, out: &mut Vec<u8>)
        requires
            old(self).wf(),
        ensures
            final(self).wf(),
            final(self).seen@ == old(self).seen@.push(c),
            final(self).invalid == has_invalid(final(self).seen@),
            decoded_whole(old(self).seen@).is_prefix_of(decoded_whole(final(self).seen@)),
            final(out)@ == old(out)@ + decoded_whole(final(self).seen@).skip(
                decoded_whole(old(self).seen@).len() as int,
            ),
    {
        let ghost text = self.seen@;
        let ghost more = text.push(c);
        self.seen = Ghost(more);
        if self.invalid {
            proof {
                lemma_step_invalid(text, c);
            }
            return ;
        }
        if c != PAD && decode_byte(c).is_err() {
            self.invalid = true;
            proof {
                lemma_step_invalid(text, c);
            }
            return ;
        }
        self.carry.push(c);
        if self.carry.len() < 4 {
            proof {
                lemma_step_partial(text, c);
            }
            return ;
        }
        proof {
            lemma_step_full(text, c);
        }
        self.close_group(out);
    }

    /// Takes in a block, symbol by symbol, up to the first invalid byte.
    fn feed(&mut self, block: &[u8], out: &mut Vec<u8>) -> (r: Result<(), DecodeError>)
        requires
            old(self).wf(),
        ensures
            final(self).wf(),
            final(self).seen@ == old(self).seen@ + block@,
            decoded_whole(old(self).seen@).is_prefix_of(decoded_whole(final(self).seen@)),
            final(out)@ == old(out)@ + decoded_whole(final(self).seen@).skip(
                decoded_whole(old(self).seen@).len() as int,
            ),
            has_invalid(final(self).seen@) ==> r == Err::<(), DecodeError>(
                DecodeError::InvalidCharacter,
            ),
            !has_invalid(final(self).seen@) ==> r == Ok::<(), DecodeError>(()),
    {
        let ghost seen0 = self.seen@;
        let ghost out0 = out@;
        let mut i: usize = 0;
        while i < block.len() && !self.invalid
            invariant
                i <= block.len(),
                self.wf(),
                self.invalid == has_invalid(self.seen@),
                self.seen@ == seen0 + block@.take(i as int),
                decoded_whole(seen0).is_prefix_of(decoded_whole(self.seen@)),
                out@ == out0 + decoded_whole(self.seen@).skip(decoded_whole(seen0).len() as int),
            decreases block.len() - i,
        {
            let ghost before = self.seen@;
            self.absorb(block[i], out);
            proof {
                assert(seen0 + block@.take(i + 1) =~= before.push(block[i as int]));
            }
            i += 1;
        }
        assert(block@.take(block.len() as int) =~= block@);
        if self.invalid {
            proof {
                let part = self.seen@;
                let rest = block@.skip(i as int);
                assert(part + rest =~= seen0 + block@);
                lemma_has_invalid_concat(part, rest);
                lemma_data_run(part);
                lemma_decoded_whole_grows(part, rest);
            }
            self.seen = Ghost(seen0 + block@);
            return Err(DecodeError::InvalidCharacter);
        }
        Ok(())
    }

    /// Says what the text taken in amounts to, and gives out the bytes that
    /// were kept back if it is well-formed.
    fn end(self, out: &mut Vec<u8>) -> (r: Result<(), DecodeError>)
        requires
            self.wf(),
        ensures
            match decoded(self.seen@) {
                Ok(bytes) => r == Ok::<(), DecodeError>(()) && final(out)@ == old(out)@
                    + bytes.skip(decoded_whole(self.seen@).len() as int),
                Err(e) => r == Err::<(), DecodeError>(e) && final(out)@ == old(out)@,
            },
    {
        if self.invalid {
            return Err(DecodeError::InvalidCharacter);
        }
        proof {
            lemma_end(
                self.sealed,
                self.misplaced,
                self.held@,
                self.seen@,
                self.carry@.len() as int,
            );
        }
        if self.carry.len() != 0 {
            return Err(DecodeError::InvalidLength);
        }
        if self.misplaced {
            return Err(DecodeError::MalformedPadding);
        }
        out.extend_from_slice(self.held.as_slice());
        Ok(())
    }
}

/// The state of a decoding run over text that arrives in blocks.
///
/// Bytes are given out group by group as long as the text holds symbols of
/// the alphabet only. The bytes of a group with padding are kept back until
/// the end, since only then is it known that the group was the last.
pub struct Decoder {
    run: Run,
}

impl Decoder {
    /// The working state fits the text taken in.
    #[verifier::type_invariant]
    spec fn wf(&self) -> bool {
        self.run.wf()
    }

    /// All the text taken in so far, in order.
    pub closed spec fn consumed(&self) -> Seq<u8> {
        self.run.seen@
    }

    /// The symbols held back until the group they belong to is full.
    pub closed spec fn carry(&self) -> Seq<u8> {
        self.run.carry@
    }

    /// All the bytes given out so far.
    pub open spec fn emitted(&self) -> Seq<u8> {
        decoded_whole(self.consumed())
    }

    /// A decoder that has taken in nothing.
    pub fn new() -> (d: Self)
        ensures
            d.consumed() == Seq::<u8>::empty(),
            d.carry() == Seq::<u8>::empty(),
    {
        Decoder { run: Run::new() }
    }

    /// Takes in the next block of the text and appends to `out` the bytes of
    /// every group that it completes, as long as the text is sound. Stops at
    /// the first byte that is neither a symbol of the alphabet nor `=`: from
    /// then on every call fails and gives out nothing. Until then, the zero
    /// to three symbols that follow the last whole group are held back as the
    /// carry.
    pub fn update(&mut self, block: &[u8], out: &mut Vec<u8>) -> (r: Result<(), DecodeError>)
        ensures
            final(self).consumed() == old(self).consumed() + block@,
            final(self).carry().len() < 4,
            !has_invalid(final(self).consumed()) ==> final(self).carry() == unfinished(
                final(self).consumed(),
            ),
            old(self).emitted().is_prefix_of(final(self).emitted()),
            final(out)@ == old(out)@ + final(self).emitted().skip(old(self).emitted().len() as int),
            has_invalid(final(self).consumed()) ==> r == Err::<(), DecodeError>(
                DecodeError::InvalidCharacter,
            ),
            !has_invalid(final(self).consumed()) ==> r == Ok::<(), DecodeError>(()),
    {
        let mut state = Decoder::new();
        std::mem::swap(self, &mut state);
        proof {
            use_type_invariant(&state);
        }
        let Decoder { mut run } = state;
        let r = run.feed(block, out);
        *self = Decoder { run };
        r
    }

    /// Ends the run and says what the text taken in amounts to. If it is
    /// well-formed, the bytes that were kept back are appended to `out`, so
    /// that all the bytes of the text are out. If not, nothing is appended.
    pub fn finish(self, out: &mut Vec<u8>) -> (r: Result<(), DecodeError>)
        ensures
            match decoded(self.consumed()) {
                Ok(bytes) => {
                    &&& r == Ok::<(), DecodeError>(())
                    &&& self.emitted().is_prefix_of(bytes)
                    &&& final(out)@ == old(out)@ + bytes.skip(self.emitted().len() as int)
                },
                Err(e) => r == Err::<(), DecodeError>(e) && final(out)@ == old(out)@,
            },
    {
        proof {
            use_type_invariant(&self);
            if decoded(self.consumed()) is Ok {
                lemma_decoded_whole_begins(self.consumed());
            }
        }
        let Decoder { run } = self;
        run.end(out)
    }
}

/// Decodes all the text that `reader` has left and appends the bytes to
/// `writer`. The text is taken in block by block; neither the outcome nor the
/// bytes depend on how the reader cuts it. When the text is refused, the
/// writer has got the bytes of the groups of sound symbols at its start.
pub fn decode_stream(reader: SliceReader<'_>, writer: &mut Vec<u8>) -> (r: Result<(), DecodeError>)
    ensures
        match decoded(reader.remaining()) {
            Ok(bytes) => r == Ok::<(), DecodeError>(()) && final(writer)@ == old(writer)@ + bytes,
            Err(e) => r == Err::<(), DecodeError>(e) && final(writer)@ == old(writer)@
                + decoded_whole(reader.remaining()),
        },
{
    let ghost all = reader.remaining();
    let ghost out0 = writer@;
    let mut source = reader;
    let mut decoder = Decoder::new();
    loop
        invariant
            all == reader.remaining(),
            out0 == old(writer)@,
            decoder.consumed() + source.remaining() == all,
            !has_invalid(decoder.consumed()),
            writer@ == out0 + decoder.emitted(),
        ensures
            source.remaining().len() == 0,
        decreases source.remaining().len(),
    {
        let ghost taken = decoder.consumed();
        let ghost left = source.remaining();
        let block = source.read(BUFSIZE);
        if block.len() == 0 {
            break ;
        }
        let step = decoder.update(block, writer);
        proof {
            assert((taken + block@) + left.skip(block@.len() as int) =~= taken + left);
        }
        match step {
            Ok(()) => {},
            Err(e) => {
                proof {
                    let part = decoder.consumed();
                    let rest = source.remaining();
                    lemma_has_invalid_concat(part, rest);
                    lemma_data_run(part);
                    lemma_decoded_whole_grows(part, rest);
                }
                return Err(e);
            },
        }
    }
    decoder.finish(writer)
}

/// The bytes that the Base64 text `input` stands for, if it is well-formed;
/// otherwise what is wrong with it, and no bytes.
pub fn decode(input: &[u8]) -> (r: Result<Vec<u8>, DecodeError>)
    ensures
        match decoded(input@) {
            Ok(bytes) => r matches Ok(v) && v@ == bytes,
            Err(e) => r == Err::<Vec<u8>, DecodeError>(e),
        },
{
    let mut output: Vec<u8> = Vec::new();
    match decode_stream(SliceReader::new(input), &mut output) {
        Ok(()) => Ok(output),
        Err(e) => Err(e),
    }
}

} // verus!
