//! What holds of the codec as a whole, proved from the model.

use vstd::prelude::*;
use crate::alphabet::{is_data, is_symbol, sextet, symbol, PAD};
use crate::error::DecodeError;
use crate::group::{lemma_split_then_join, octet_of, sextet_of};
use crate::model::{
    byte_or_zero, decoded, decoded_bytes, decoded_whole, encoded, encoded_len, encoded_whole,
    has_invalid, has_misplaced_pad, lemma_decoded_whole_begins, lemma_decoded_whole_grows,
    pad_count, pad_in_place,
};

verus! {

/// The alphabet and its inverse undo each other: the symbol for a six-bit
/// value stands for that value, so that no two values share a symbol, and a
/// symbol of the alphabet is the symbol for the value it stands for. The
/// padding sign is none of the 64.
pub proof fn law_alphabet_inverse()
    ensures
        forall|v: u8| v < 64 ==> is_data(#[trigger] symbol(v)) && sextet(symbol(v)) == v,
        forall|c: u8| is_data(c) ==> #[trigger] sextet(c) < 64 && symbol(sextet(c)) == c,
        !is_data(PAD),
{
}

/// The text group by group: every three bytes give four symbols, and one or
/// two bytes at the end give two or three symbols, filled up with `=`. The
/// bytes that are missing in the last group count as zero.
pub proof fn law_encoded_by_groups(bytes: Seq<u8>)
    ensures
        bytes.len() == 0 ==> encoded(bytes) == Seq::<u8>::empty(),
        bytes.len() == 1 ==> encoded(bytes) == seq![
            symbol(sextet_of(bytes[0], 0, 0, 0)),
            symbol(sextet_of(bytes[0], 0, 0, 1)),
            PAD,
            PAD,
        ],
        bytes.len() == 2 ==> encoded(bytes) == seq![
            symbol(sextet_of(bytes[0], bytes[1], 0, 0)),
            symbol(sextet_of(bytes[0], bytes[1], 0, 1)),
            symbol(sextet_of(bytes[0], bytes[1], 0, 2)),
            PAD,
        ],
        bytes.len() >= 3 ==> encoded(bytes) == seq![
            symbol(sextet_of(bytes[0], bytes[1], bytes[2], 0)),
            symbol(sextet_of(bytes[0], bytes[1], bytes[2], 1)),
            symbol(sextet_of(bytes[0], bytes[1], bytes[2], 2)),
            symbol(sextet_of(bytes[0], bytes[1], bytes[2], 3)),
        ] + encoded(bytes.skip(3)),
{
}

/// The bytes of well-formed text group by group: four symbols give three
/// bytes, and a last group that ends in `=` or `==` gives two bytes or one.
/// A padding sign counts as zero bits.
pub proof fn law_decoded_by_groups(text: Seq<u8>)
    requires
        decoded(text) is Ok,
    ensures
        text.len() == 0 ==> decoded_bytes(text) == Seq::<u8>::empty(),
        text.len() >= 4 && text[2] == PAD ==> text.len() == 4 && decoded_bytes(text) == seq![
            octet_of(sextet(text[0]), sextet(text[1]), 0, 0, 0),
        ],
        text.len() >= 4 && text[2] != PAD && text[3] == PAD ==> text.len() == 4 && decoded_bytes(
            text,
        ) == seq![
            octet_of(sextet(text[0]), sextet(text[1]), sextet(text[2]), 0, 0),
            octet_of(sextet(text[0]), sextet(text[1]), sextet(text[2]), 0, 1),
        ],
        text.len() >= 4 && text[3] != PAD ==> decoded(text.skip(4)) is Ok && decoded_bytes(text)
            == seq![
            octet_of(sextet(text[0]), sextet(text[1]), sextet(text[2]), sextet(text[3]), 0),
            octet_of(sextet(text[0]), sextet(text[1]), sextet(text[2]), sextet(text[3]), 1),
            octet_of(sextet(text[0]), sextet(text[1]), sextet(text[2]), sextet(text[3]), 2),
        ] + decoded_bytes(text.skip(4)),
{
}

/// The text for `bytes` ends in as many padding signs as the last group lacks
/// bytes: none for a length of `3k`, two for `3k + 1`, one for `3k + 2`. All
/// that comes before them is symbols of the alphabet.
pub proof fn law_padding_matches_remainder(bytes: Seq<u8>)
    ensures
        encoded(bytes).len() == encoded_len(bytes.len()),
        encoded(bytes).len() % 4 == 0,
        bytes.len() % 3 == 0 ==> pad_count(encoded(bytes)) == 0,
        bytes.len() % 3 == 1 ==> pad_count(encoded(bytes)) == 2,
        bytes.len() % 3 == 2 ==> pad_count(encoded(bytes)) == 1,
        forall|i: int|
            0 <= i < encoded(bytes).len() - pad_count(encoded(bytes)) ==> is_data(
                #[trigger] encoded(bytes)[i],
            ),
        forall|i: int|
            encoded(bytes).len() - pad_count(encoded(bytes)) <= i < encoded(bytes).len()
                ==> #[trigger] encoded(bytes)[i] == PAD,
{
}

/// Decoding the text for `bytes` gives `bytes` back.
pub proof fn law_round_trip(bytes: Seq<u8>)
    ensures
        decoded(encoded(bytes)) == Ok::<Seq<u8>, DecodeError>(bytes),
{
    let text = encoded(bytes);
    let n = bytes.len() as int;
    let back = decoded_bytes(text);
    assert forall|j: int| 0 <= j < n implies back[j] == bytes[j] by {
        let g = j / 3;
        let a = byte_or_zero(bytes, 3 * g);
        let b = byte_or_zero(bytes, 3 * g + 1);
        let c = byte_or_zero(bytes, 3 * g + 2);
        lemma_split_then_join(a, b, c);
    }
    assert(back =~= bytes);
}

/// Text that holds a byte which is neither a symbol of the alphabet nor `=`
/// is refused as holding an invalid character, wherever the byte stands and
/// whatever else is wrong with the text.
pub proof fn law_invalid_character_wins(text: Seq<u8>, i: int)
    requires
        0 <= i < text.len(),
        !is_symbol(text[i]),
    ensures
        decoded(text) == Err::<Seq<u8>, DecodeError>(DecodeError::InvalidCharacter),
{
}

/// Text of symbols and padding signs whose length is no multiple of four is
/// refused for its length, wherever its padding stands.
pub proof fn law_invalid_length(text: Seq<u8>)
    requires
        forall|i: int| 0 <= i < text.len() ==> is_symbol(#[trigger] text[i]),
        text.len() % 4 != 0,
    ensures
        decoded(text) == Err::<Seq<u8>, DecodeError>(DecodeError::InvalidLength),
{
}

/// Text of symbols and padding signs in whole groups is refused for its
/// padding if a `=` stands before the last two places of the text or is
/// followed by anything but `=`: so also where a group other than the last
/// holds a `=`.
pub proof fn law_malformed_padding(text: Seq<u8>, i: int)
    requires
        forall|i: int| 0 <= i < text.len() ==> is_symbol(#[trigger] text[i]),
        text.len() % 4 == 0,
        0 <= i < text.len(),
        text[i] == PAD,
        i + 2 < text.len() || (i + 1 < text.len() && text[i + 1] != PAD),
    ensures
        decoded(text) == Err::<Seq<u8>, DecodeError>(DecodeError::MalformedPadding),
{
}

/// Text is taken exactly if it is made of whole groups of symbols of the
/// alphabet, of which the last may end in one or two padding signs. It then
/// stands for three bytes for each group, less one for each padding sign.
pub proof fn law_well_formed(text: Seq<u8>)
    ensures
        decoded(text) is Ok <==> {
            &&& text.len() % 4 == 0
            &&& pad_count(text) <= text.len()
            &&& forall|i: int| 0 <= i < text.len() - pad_count(text) ==> is_data(#[trigger] text[i])
        },
        decoded(text) matches Ok(bytes) ==> bytes.len() == 3 * (text.len() / 4) - pad_count(text),
{
}

/// The blocks of a stream put together again.
pub open spec fn joined(blocks: Seq<Seq<u8>>) -> Seq<u8>
    decreases blocks.len(),
{
    if blocks.len() == 0 {
        Seq::empty()
    } else {
        joined(blocks.drop_last()) + blocks.last()
    }
}

/// All that an `Encoder` appends while it takes in `blocks` one after
/// another: with each block, the part of the text of the whole groups that
/// was not out before.
pub open spec fn encoder_appends(blocks: Seq<Seq<u8>>) -> Seq<u8>
    decreases blocks.len(),
{
    if blocks.len() == 0 {
        Seq::empty()
    } else {
        let before = joined(blocks.drop_last());
        encoder_appends(blocks.drop_last()) + encoded_whole(before + blocks.last()).skip(
            encoded_whole(before).len() as int,
        )
    }
}

/// All that a `Decoder` appends while it takes in `blocks` one after another.
pub open spec fn decoder_appends(blocks: Seq<Seq<u8>>) -> Seq<u8>
    decreases blocks.len(),
{
    if blocks.len() == 0 {
        Seq::empty()
    } else {
        let before = joined(blocks.drop_last());
        decoder_appends(blocks.drop_last()) + decoded_whole(before + blocks.last()).skip(
            decoded_whole(before).len() as int,
        )
    }
}

/// However a stream of bytes is cut into blocks, be it one byte at a time,
/// an encoder that takes in the blocks and is then finished has put out the
/// text for the whole stream, as it would have for the stream in one block.
pub proof fn law_encoding_ignores_cuts(blocks: Seq<Seq<u8>>)
    ensures
        encoder_appends(blocks) == encoded_whole(joined(blocks)),
        encoder_appends(blocks) + encoded(joined(blocks)).skip(
            encoded_whole(joined(blocks)).len() as int,
        ) == encoded(joined(blocks)),
    decreases blocks.len(),
{
    if blocks.len() > 0 {
        law_encoding_ignores_cuts(blocks.drop_last());
    }
}

/// However a stream of text is cut into blocks, be it one symbol at a time,
/// a decoder that takes in the blocks has put out what it would have for the
/// stream in one block; and if the text is well-formed, all its bytes are
/// out once the decoder is finished.
pub proof fn law_decoding_ignores_cuts(blocks: Seq<Seq<u8>>)
    ensures
        decoder_appends(blocks) == decoded_whole(joined(blocks)),
        decoded(joined(blocks)) matches Ok(bytes) ==> decoder_appends(blocks) + bytes.skip(
            decoded_whole(joined(blocks)).len() as int,
        ) == bytes,
    decreases blocks.len(),
{
    let all = joined(blocks);
    if blocks.len() > 0 {
        let before = joined(blocks.drop_last());
        law_decoding_ignores_cuts(blocks.drop_last());
        lemma_decoded_whole_grows(before, blocks.last());
    }
    if decoded(all) is Ok {
        lemma_decoded_whole_begins(all);
    }
}

} // verus!
