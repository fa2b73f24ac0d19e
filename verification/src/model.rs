//! What Base64 text is, stated over sequences of bytes.
//!
//! Both directions are given position by position: the symbol at place `i` of
//! the text and the byte at place `j` of the data each depend on one group
//! only, which is what lets a stream be handled piece by piece.

use vstd::prelude::*;
use crate::alphabet::{is_data, is_symbol, sextet, symbol, PAD};
use crate::error::DecodeError;
use crate::group::{octet_of, sextet_of};

verus! {

/// The byte at place `i`, or zero past the end.
pub open spec fn byte_or_zero(bytes: Seq<u8>, i: int) -> u8 {
    if 0 <= i < bytes.len() {
        bytes[i]
    } else {
        0
    }
}

/// The length of the text for `n` bytes: four symbols for every group of
/// three, the last group filled up.
pub open spec fn encoded_len(n: nat) -> nat {
    4 * ((n + 2) / 3)
}

/// The symbol at place `i` of the text for `bytes`. A place whose six bits lie
/// wholly past the data holds the padding sign.
pub open spec fn encoded_at(bytes: Seq<u8>, i: int) -> u8 {
    let g = i / 4;
    let k = i % 4;
    if 3 * g + k > bytes.len() {
        PAD
    } else {
        symbol(
            sextet_of(
                byte_or_zero(bytes, 3 * g),
                byte_or_zero(bytes, 3 * g + 1),
                byte_or_zero(bytes, 3 * g + 2),
                k,
            ),
        )
    }
}

/// The Base64 text for `bytes`.
pub open spec fn encoded(bytes: Seq<u8>) -> Seq<u8> {
    Seq::new(encoded_len(bytes.len()), |i: int| encoded_at(bytes, i))
}

/// The text for the whole groups of `bytes`, leaving out the last one or two
/// bytes that do not fill a group.
pub open spec fn encoded_whole(bytes: Seq<u8>) -> Seq<u8> {
    Seq::new(4 * (bytes.len() / 3), |i: int| encoded_at(bytes, i))
}

/// The last zero, one or two of `bytes`: those that follow its last whole
/// group.
pub open spec fn leftover(bytes: Seq<u8>) -> Seq<u8> {
    bytes.skip(3 * (bytes.len() as int / 3))
}

/// The same text as characters.
pub open spec fn as_chars(text: Seq<u8>) -> Seq<char> {
    Seq::new(text.len(), |i: int| text[i] as char)
}

/// The last zero to three symbols of `text`: those that follow its last whole
/// group.
pub open spec fn unfinished(text: Seq<u8>) -> Seq<u8> {
    text.skip(4 * (text.len() as int / 4))
}

/// The six-bit value of the symbol at place `i`; zero for the padding sign and
/// past the end.
pub open spec fn value_or_zero(text: Seq<u8>, i: int) -> u8 {
    if 0 <= i < text.len() && is_data(text[i]) {
        sextet(text[i])
    } else {
        0
    }
}

/// The byte at place `j` of the data that `text` stands for.
pub open spec fn decoded_at(text: Seq<u8>, j: int) -> u8 {
    let g = j / 3;
    let k = j % 3;
    octet_of(
        value_or_zero(text, 4 * g),
        value_or_zero(text, 4 * g + 1),
        value_or_zero(text, 4 * g + 2),
        value_or_zero(text, 4 * g + 3),
        k,
    )
}

/// Whether some byte of `text` is neither a symbol of the alphabet nor `=`.
pub open spec fn has_invalid(text: Seq<u8>) -> bool {
    exists|i: int| 0 <= i < text.len() && !is_symbol(#[trigger] text[i])
}

/// Whether place `i` is one where padding may stand: one of the last two
/// places of the text, with nothing but padding after it.
pub open spec fn pad_in_place(text: Seq<u8>, i: int) -> bool {
    i + 2 >= text.len() && (i + 1 < text.len() ==> text[i + 1] == PAD)
}

/// Whether some `=` of `text` stands where padding may not stand.
pub open spec fn has_misplaced_pad(text: Seq<u8>) -> bool {
    exists|i: int| 0 <= i < text.len() && (#[trigger] text[i]) == PAD && !pad_in_place(text, i)
}

/// How many of the last two places of `text` hold padding, counted from the end.
pub open spec fn pad_count(text: Seq<u8>) -> nat {
    let n = text.len() as int;
    if n >= 2 && text[n - 1] == PAD && text[n - 2] == PAD {
        2
    } else if n >= 1 && text[n - 1] == PAD {
        1
    } else {
        0
    }
}

/// The number of bytes that well-formed `text` stands for: three for each
/// group of four symbols, less one for each padding sign.
pub open spec fn decoded_len(text: Seq<u8>) -> nat {
    (3 * (text.len() as int / 4) - pad_count(text)) as nat
}

/// The bytes that well-formed `text` stands for.
pub open spec fn decoded_bytes(text: Seq<u8>) -> Seq<u8> {
    Seq::new(decoded_len(text), |j: int| decoded_at(text, j))
}

/// What decoding `text` gives. A byte outside the alphabet is reported before
/// a wrong length, and a wrong length before padding out of place.
pub open spec fn decoded(text: Seq<u8>) -> Result<Seq<u8>, DecodeError> {
    if has_invalid(text) {
        Err(DecodeError::InvalidCharacter)
    } else if text.len() % 4 != 0 {
        Err(DecodeError::InvalidLength)
    } else if has_misplaced_pad(text) {
        Err(DecodeError::MalformedPadding)
    } else {
        Ok(decoded_bytes(text))
    }
}

/// How many symbols of the alphabet `text` begins with.
pub open spec fn data_run(text: Seq<u8>) -> nat
    decreases text.len(),
{
    if text.len() == 0 {
        0
    } else {
        let before = data_run(text.drop_last());
        if before == text.len() - 1 && is_data(text.last()) {
            before + 1
        } else {
            before
        }
    }
}

/// The bytes of the groups at the start of `text` that hold symbols of the
/// alphabet only: what can be given out before the end of the text is known.
pub open spec fn decoded_whole(text: Seq<u8>) -> Seq<u8> {
    Seq::new(3 * (data_run(text) / 4), |j: int| decoded_at(text, j))
}

/// `data_run` stops at the first byte that is no symbol of the alphabet.
pub proof fn lemma_data_run(text: Seq<u8>)
    ensures
        data_run(text) <= text.len(),
        forall|i: int| 0 <= i < data_run(text) ==> is_data(#[trigger] text[i]),
        data_run(text) < text.len() ==> !is_data(text[data_run(text) as int]),
    decreases text.len(),
{
    if text.len() > 0 {
        let front = text.drop_last();
        lemma_data_run(front);
        assert forall|i: int| 0 <= i < data_run(text) implies is_data(#[trigger] text[i]) by {
            if i < front.len() {
                assert(text[i] == front[i]);
            }
        }
    }
}

/// A run that has stopped stays stopped, whatever follows.
pub proof fn lemma_data_run_stopped(text: Seq<u8>, more: Seq<u8>)
    requires
        data_run(text) < text.len(),
    ensures
        data_run(text + more) == data_run(text),
{
    lemma_data_run(text);
    lemma_data_run(text + more);
    let k = data_run(text) as int;
    assert((text + more)[k] == text[k]);
}

/// The run of a text cut off at `m` is the run of the text, cut off at `m`.
pub proof fn lemma_data_run_take(text: Seq<u8>, m: int)
    requires
        0 <= m <= text.len(),
    ensures
        data_run(text.take(m)) == if data_run(text) < m { data_run(text) as int } else { m },
{
    let cut = text.take(m);
    lemma_data_run(text);
    lemma_data_run(cut);
    let a = data_run(text) as int;
    if a < m {
        assert(cut[a] == text[a]);
    }
}

/// One more byte makes a text invalid exactly if it was so before or the byte
/// is no symbol.
pub proof fn lemma_has_invalid_push(text: Seq<u8>, c: u8)
    ensures
        has_invalid(text.push(c)) == (has_invalid(text) || !is_symbol(c)),
{
    let more = text.push(c);
    if has_invalid(text) {
        let i = choose|i: int| 0 <= i < text.len() && !is_symbol(#[trigger] text[i]);
        assert(more[i] == text[i]);
    }
    if !is_symbol(c) {
        assert(more[text.len() as int] == c);
    }
}

/// A text is invalid exactly if one of its two parts is.
pub proof fn lemma_has_invalid_concat(front: Seq<u8>, back: Seq<u8>)
    ensures
        has_invalid(front + back) == (has_invalid(front) || has_invalid(back)),
{
    let all = front + back;
    if has_invalid(front) {
        let i = choose|i: int| 0 <= i < front.len() && !is_symbol(#[trigger] front[i]);
        assert(all[i] == front[i]);
    }
    if has_invalid(back) {
        let i = choose|i: int| 0 <= i < back.len() && !is_symbol(#[trigger] back[i]);
        assert(all[front.len() + i] == back[i]);
    }
}

/// After one more byte the bytes that can be given out are unchanged, unless
/// that byte fills a group and the text so far holds symbols of the alphabet
/// only: then the three bytes of that group are added.
pub proof fn lemma_decoded_whole_push(text: Seq<u8>, c: u8)
    ensures
        data_run(text) == text.len() && is_data(c) && (text.len() + 1) % 4 == 0
            ==> decoded_whole(text.push(c)) == decoded_whole(text) + seq![
            octet_of(
                sextet(text[text.len() - 3]),
                sextet(text[text.len() - 2]),
                sextet(text[text.len() - 1]),
                sextet(c),
                0,
            ),
            octet_of(
                sextet(text[text.len() - 3]),
                sextet(text[text.len() - 2]),
                sextet(text[text.len() - 1]),
                sextet(c),
                1,
            ),
            octet_of(
                sextet(text[text.len() - 3]),
                sextet(text[text.len() - 2]),
                sextet(text[text.len() - 1]),
                sextet(c),
                2,
            ),
        ],
        !(data_run(text) == text.len() && is_data(c) && (text.len() + 1) % 4 == 0)
            ==> decoded_whole(text.push(c)) == decoded_whole(text),
{
    let more = text.push(c);
    assert(more.drop_last() =~= text);
    lemma_data_run(text);
}

/// Bytes that are out stay as they are: what can be given out for `text`
/// begins what can be given out for `text` followed by `more`.
pub proof fn lemma_decoded_whole_grows(text: Seq<u8>, more: Seq<u8>)
    ensures
        decoded_whole(text).is_prefix_of(decoded_whole(text + more)),
        data_run(text) < text.len() ==> decoded_whole(text + more) == decoded_whole(text),
{
    let all = text + more;
    lemma_data_run(text);
    lemma_data_run(all);
    let a = data_run(text) as int;
    if a < text.len() {
        lemma_data_run_stopped(text, more);
    }
}

/// What is given out before the end of well-formed text begins the bytes that
/// the text stands for.
pub proof fn lemma_decoded_whole_begins(text: Seq<u8>)
    requires
        decoded(text) is Ok,
    ensures
        decoded_whole(text).is_prefix_of(decoded_bytes(text)),
{
    lemma_data_run(text);
}

/// A text of symbols of the alphabet only has no padding out of place.
pub proof fn lemma_all_data_no_pad(text: Seq<u8>)
    requires
        data_run(text) == text.len(),
    ensures
        !has_misplaced_pad(text),
        pad_count(text) == 0,
{
    lemma_data_run(text);
}

} // verus!
