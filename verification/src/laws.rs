use crate::checksum::{
    byte_total, lemma_wrapping_step, resolved, sequence_checksum, word_checksum, words_total,
};
use crate::error::CodecError;
use crate::fields::lemma_field_of_front;
use crate::layout::{
    encoded_len, lemma_encoding_lays_out, lemma_encoding_len, lemma_layout_decodes,
    lemma_layout_walk, lemma_walk_payload, payload_start, relocatable_decoding,
    relocatable_encoding, slot, stored_count, walk,
};
use crate::lines::line_bytes;
use crate::relocatable::{all_byte_sum, nth_byte_sum, relocated};
use crate::schema::{all_sum_allowed, holds_words, nth_sum_allowed};
use vstd::prelude::*;
use vstd::utf8::{decode_utf8, encode_utf8_decode_utf8};

verus! {

/// The checksum of no words is 0.
pub proof fn law_checksum_of_nothing()
    ensures
        sequence_checksum(Seq::empty()) == 0,
        word_checksum(Seq::empty()) == 0,
{
}

/// The checksum of a sequence is the wrapping sum of the checksums of its
/// words: one more word adds its checksum, wrapping at 32 bits.
pub proof fn law_checksum_adds_up(words: Seq<Seq<u8>>, word: Seq<u8>)
    ensures
        sequence_checksum(words.push(word)) == sequence_checksum(words).wrapping_add(
            word_checksum(word),
        ),
{
    let longer = words.push(word);
    assert(longer.drop_last() =~= words);
    assert(longer.last() == word);
    lemma_wrapping_step(words_total(words), byte_total(word));
}

/// Round trip: decoding the encoding of a sequence of words yields that
/// sequence.
pub proof fn law_roundtrip(words: Seq<Seq<u8>>)
    requires
        encoded_len(words) <= u64::MAX,
    ensures
        relocatable_decoding(relocatable_encoding(words)) == Some(words),
{
    lemma_encoding_lays_out(words);
    lemma_layout_decodes(relocatable_encoding(words), words);
}

/// Round trip of text: what the encoding of `lines` decodes to has the
/// length of `lines`, and each of its words is the UTF-8 form of the line at
/// its index and of no other text.
pub proof fn law_roundtrip_of_lines(lines: Seq<String>)
    requires
        encoded_len(line_bytes(lines)) <= u64::MAX,
    ensures
        relocatable_decoding(relocatable_encoding(line_bytes(lines))) == Some(line_bytes(lines)),
        line_bytes(lines).len() == lines.len(),
        forall|i: int|
            0 <= i < lines.len() ==> decode_utf8(#[trigger] line_bytes(lines)[i]) == lines[i]@,
{
    law_roundtrip(line_bytes(lines));
    assert forall|i: int| 0 <= i < lines.len() implies decode_utf8(
        #[trigger] line_bytes(lines)[i],
    ) == lines[i]@ by {
        encode_utf8_decode_utf8(lines[i]@);
    }
}

/// Random access: the checksum of element `n` of a decoded encoding is the
/// checksum of word `n`.
pub proof fn law_random_access(words: Seq<Seq<u8>>, n: int)
    requires
        encoded_len(words) <= u64::MAX,
        0 <= n < words.len(),
    ensures
        nth_byte_sum(relocatable_encoding(words), n) == Ok::<u32, CodecError>(
            word_checksum(words[n]),
        ),
{
    law_roundtrip(words);
}

/// Bounds: an index that is not below the length is out of range, the length
/// itself to begin with.
pub proof fn law_index_out_of_range(words: Seq<Seq<u8>>, n: int)
    requires
        encoded_len(words) <= u64::MAX,
        n >= words.len(),
    ensures
        nth_byte_sum(relocatable_encoding(words), n) == Err::<u32, CodecError>(
            CodecError::IndexOutOfRange,
        ),
        nth_byte_sum(relocatable_encoding(words), words.len() as int) == Err::<u32, CodecError>(
            CodecError::IndexOutOfRange,
        ),
{
    law_roundtrip(words);
}

/// The checksum of a decoded encoding is the checksum of the words.
pub proof fn law_whole_checksum(words: Seq<Seq<u8>>)
    requires
        encoded_len(words) <= u64::MAX,
    ensures
        all_byte_sum(relocatable_encoding(words)) == Ok::<u32, CodecError>(
            sequence_checksum(words),
        ),
{
    law_roundtrip(words);
}

/// Empty input: the encoding of no words decodes to no words, and their
/// checksum is 0.
pub proof fn law_empty_input()
    ensures
        relocatable_decoding(relocatable_encoding(Seq::empty())) == Some(
            Seq::<Seq<u8>>::empty(),
        ),
        all_byte_sum(relocatable_encoding(Seq::empty())) == Ok::<u32, CodecError>(0),
{
    let none = Seq::<Seq<u8>>::empty();
    law_roundtrip(none);
}

/// Different sequences of words have different encodings.
pub proof fn law_encoding_tells_apart(one: Seq<Seq<u8>>, other: Seq<Seq<u8>>)
    requires
        encoded_len(one) <= u64::MAX,
        encoded_len(other) <= u64::MAX,
        relocatable_encoding(one) == relocatable_encoding(other),
    ensures
        one == other,
{
    law_roundtrip(one);
    law_roundtrip(other);
}

/// Cross-format identity: where a message holds `words`, every checksum that
/// decoding the whole message may return is the one that the relocatable
/// encoding of `words` decodes to. That the message which is written for
/// `words` holds them rests on capnp, and is not proved here.
pub proof fn law_cross_format_identity(words: Seq<Seq<u8>>, message: Seq<u8>, sum: u32)
    requires
        encoded_len(words) <= u64::MAX,
        holds_words(message, words),
        all_sum_allowed(message, Ok(sum)),
    ensures
        all_byte_sum(relocatable_encoding(words)) == Ok::<u32, CodecError>(sum),
        sum == sequence_checksum(words),
{
    law_roundtrip(words);
    let entries = Seq::new(words.len(), |i: int| Some(words[i]));
    assert(resolved(entries) =~= words);
}

/// Random access in a message: where a message holds `words`, every checksum
/// that decoding element `n` may return is the checksum of word `n`, and an
/// index that is not below the length is never answered by a sum.
pub proof fn law_message_random_access(
    words: Seq<Seq<u8>>,
    message: Seq<u8>,
    n: int,
    r: Result<u32, CodecError>,
)
    requires
        holds_words(message, words),
        nth_sum_allowed(message, n, r),
    ensures
        r matches Ok(sum) ==> 0 <= n < words.len() && sum == word_checksum(words[n]),
        r == Err::<u32, CodecError>(CodecError::IndexOutOfRange) ==> n >= words.len(),
        n >= words.len() ==> r is Err,
{
    let entries = Seq::new(words.len(), |i: int| Some(words[i]));
    assert(resolved(entries) =~= words);
}

/// Empty input in a message: where a message holds no words, every checksum
/// that decoding the whole message may return is 0. On the decoded list
/// itself `sum_all` returns 0 without a read.
pub proof fn law_message_empty_input(message: Seq<u8>, sum: u32)
    requires
        holds_words(message, Seq::empty()),
        all_sum_allowed(message, Ok(sum)),
    ensures
        sum == 0,
{
    let none = Seq::<Seq<u8>>::empty();
    let entries = Seq::new(none.len(), |i: int| Some(none[i]));
    assert(resolved(entries) =~= none);
}

/// Two buffers that hold the same count and the same table are walked alike.
pub proof fn lemma_same_table_same_walk(one: Seq<u8>, other: Seq<u8>, i: int)
    requires
        0 <= stored_count(one) == stored_count(other),
        payload_start(stored_count(one)) <= one.len(),
        payload_start(stored_count(one)) <= other.len(),
        one.subrange(0, payload_start(stored_count(one))) == other.subrange(
            0,
            payload_start(stored_count(one)),
        ),
        0 <= i <= stored_count(one),
    ensures
        walk(one, i) == walk(other, i),
    decreases i,
{
    if i > 0 {
        lemma_same_table_same_walk(one, other, i - 1);
        let end = payload_start(stored_count(one));
        lemma_field_of_front(one, end, slot(i - 1) + 16);
        lemma_field_of_front(other, end, slot(i - 1) + 16);
    }
}

/// A buffer that begins like an encoding but has another length is refused.
pub proof fn lemma_other_length_refused(words: Seq<Seq<u8>>, other: Seq<u8>)
    requires
        encoded_len(words) <= u64::MAX,
        other.len() != encoded_len(words),
        forall|k: int|
            0 <= k < other.len() && k < encoded_len(words) ==> other[k] == relocatable_encoding(
                words,
            )[k],
    ensures
        relocatable_decoding(other) is None,
{
    let whole = relocatable_encoding(words);
    let n = words.len() as int;
    lemma_encoding_len(words);
    lemma_encoding_lays_out(words);
    if other.len() >= 24 {
        assert(other.subrange(16, 24) =~= whole.subrange(16, 24));
        assert(stored_count(other) == n);
        let end = payload_start(n);
        if end <= other.len() {
            assert(other.subrange(0, end) =~= whole.subrange(0, end));
            lemma_same_table_same_walk(other, whole, n);
            lemma_layout_walk(whole, words, n);
            assert(words.take(n) =~= words);
        }
    }
}

/// Corruption: an encoding cut short by one byte is refused.
pub proof fn law_truncation_refused(words: Seq<Seq<u8>>)
    requires
        encoded_len(words) <= u64::MAX,
    ensures
        relocatable_decoding(relocatable_encoding(words).drop_last()) is None,
        nth_byte_sum(relocatable_encoding(words).drop_last(), 0) == Err::<u32, CodecError>(
            CodecError::CorruptEncoding,
        ),
        all_byte_sum(relocatable_encoding(words).drop_last()) == Err::<u32, CodecError>(
            CodecError::CorruptEncoding,
        ),
{
    lemma_encoding_len(words);
    lemma_other_length_refused(words, relocatable_encoding(words).drop_last());
}

/// Every proper beginning of an encoding is refused.
pub proof fn law_prefix_refused(words: Seq<Seq<u8>>, keep: int)
    requires
        encoded_len(words) <= u64::MAX,
        0 <= keep < encoded_len(words),
    ensures
        relocatable_decoding(relocatable_encoding(words).take(keep)) is None,
{
    lemma_encoding_len(words);
    lemma_other_length_refused(words, relocatable_encoding(words).take(keep));
}

/// Leftover bytes: an encoding with anything after it is refused.
pub proof fn law_leftover_refused(words: Seq<Seq<u8>>, extra: Seq<u8>)
    requires
        encoded_len(words) <= u64::MAX,
        extra.len() > 0,
    ensures
        relocatable_decoding(relocatable_encoding(words) + extra) is None,
{
    lemma_encoding_len(words);
    lemma_other_length_refused(words, relocatable_encoding(words) + extra);
}

/// Decoding reads lengths only: a buffer decodes to the words of the
/// encoding it is relocated to, so that a second decode of the same buffer
/// gives the same words.
pub proof fn law_relocated_decodes_alike(bytes: Seq<u8>)
    requires
        bytes.len() <= u64::MAX,
    ensures
        relocatable_decoding(relocated(bytes)) == relocatable_decoding(bytes),
{
    match relocatable_decoding(bytes) {
        Some(words) => {
            lemma_walk_payload(bytes, stored_count(bytes));
            assert(words.take(words.len() as int) =~= words);
            law_roundtrip(words);
        },
        None => {},
    }
}

} // verus!
