use crate::checksum::{resolved, sequence_checksum, sum_all, sum_one, word_checksum, WordList};
use crate::error::CodecError;
use crate::fields::{get_field, push_field, put_field, with_field};
use crate::layout::{
    entry_relocated, header, lays_out, lemma_layout_decodes, lemma_layout_unique,
    lemma_payload_word, lemma_walk_monotone, payload_start, relocatable_decoding,
    relocatable_encoding, slot, stored_count, stored_len, stored_words, walk, well_formed,
    word_offset,
};
use crate::lines::line_bytes;
use crate::steps::{
    laid, lemma_laid_end, lemma_laid_step, lemma_patch_end, lemma_patch_start, lemma_patch_step,
    lemma_tabled_laid, lemma_tabled_start, lemma_tabled_step, patched, tabled,
};
use vstd::prelude::*;
use vstd::slice::slice_subrange;

verus! {

broadcast use vstd::slice::group_slice_axioms;

/// A decoded sequence: a view into the buffer it was decoded in, which holds
/// the relocated image of its words.
pub struct DecodedWords<'a> {
    arena: &'a [u8],
    count: usize,
}

impl<'a> View for DecodedWords<'a> {
    type V = Seq<Seq<u8>>;

    closed spec fn view(&self) -> Seq<Seq<u8>> {
        stored_words(self.arena@)
    }
}

impl<'a> DecodedWords<'a> {
    #[verifier::type_invariant]
    spec fn relocated(self) -> bool {
        &&& self.count == stored_count(self.arena@)
        &&& lays_out(self.arena@, stored_words(self.arena@))
    }

    /// The bytes of the buffer that the words are read from.
    pub closed spec fn arena(&self) -> Seq<u8> {
        self.arena@
    }

    /// The number of words.
    pub fn len(&self) -> (n: usize)
        ensures
            n == self@.len(),
    {
        proof {
            use_type_invariant(self);
        }
        self.count
    }

    /// The bytes of word `index`, found through its header; `None` where
    /// `index` is not below the length.
    pub fn get(&self, index: usize) -> (r: Option<&'a [u8]>)
        ensures
            match r {
                Some(w) => index < self@.len() && w@ == self@[index as int],
                None => index >= self@.len(),
            },
    {
        proof {
            use_type_invariant(self);
        }
        if index >= self.count {
            return None;
        }
        let ghost words = stored_words(self.arena@);
        proof {
            assert(entry_relocated(self.arena@, words, index as int));
            lemma_payload_word(words, index as int);
        }
        let total = self.arena.len();
        let at: usize = 24 + 24 * index;
        let start = get_field(self.arena, at) as usize;
        let length = get_field(self.arena, at + 16) as usize;
        let w = slice_subrange(self.arena, start, start + length);
        proof {
            let p = payload_start(words.len() as int);
            assert(self.arena@.subrange(start as int, start + length) =~= self.arena@.subrange(
                p,
                total as int,
            ).subrange(word_offset(words, index as int), word_offset(words, index + 1)));
        }
        Some(w)
    }
}

impl<'a> WordList for DecodedWords<'a> {
    open spec fn entries(&self) -> Seq<Option<Seq<u8>>> {
        Seq::new(self@.len(), |i: int| Some(self@[i]))
    }

    open spec fn budgeted(&self) -> bool {
        false
    }

    fn length(&self) -> (n: usize) {
        self.len()
    }

    fn word(&self, index: usize) -> (r: Result<&[u8], CodecError>) {
        match self.get(index) {
            Some(w) => Ok(w),
            None => Err(CodecError::IndexOutOfRange),
        }
    }
}

/// Appends the relocatable encoding of `lines` to `bytes`. The table is
/// written first, with the lengths; each position is filled in when its word
/// is laid down, from where the word then stands.
pub fn encode_abom_lean(lines: &Vec<String>, bytes: &mut Vec<u8>)
    ensures
        final(bytes)@ == old(bytes)@ + relocatable_encoding(line_bytes(lines@)),
{
    let base = bytes.len();
    let n = lines.len();
    let ghost words = line_bytes(lines@);
    let ghost before = bytes@;
    push_field(bytes, 24);
    push_field(bytes, n as u64);
    push_field(bytes, n as u64);
    let ghost image = header(24, n as u64);
    proof {
        lemma_tabled_start(words);
        assert(bytes@ =~= before + image);
    }
    let mut i: usize = 0;
    while i < n
        invariant
            i <= n,
            n == lines.len(),
            words == line_bytes(lines@),
            bytes@ == before + image,
            tabled(image, words, i as int),
        decreases n - i,
    {
        let length = lines[i].as_str().as_bytes().len();
        push_field(bytes, 0);
        push_field(bytes, length as u64);
        push_field(bytes, length as u64);
        proof {
            lemma_tabled_step(image, words, i as int, length as u64);
            assert(bytes@ =~= before + (image + header(0, length as u64)));
            image = image + header(0, length as u64);
        }
        i += 1;
    }
    proof {
        lemma_tabled_laid(image, words);
    }
    let mut i: usize = 0;
    while i < n
        invariant
            i <= n,
            n == lines.len(),
            words == line_bytes(lines@),
            base == before.len(),
            bytes@ == before + image,
            laid(image, words, i as int),
        decreases n - i,
    {
        let position = bytes.len() - base;
        let word = lines[i].as_str().as_bytes();
        put_field(bytes.as_mut_slice(), base + 24 + 24 * i, position as u64);
        let ghost patched = bytes@;
        bytes.extend_from_slice(word);
        proof {
            lemma_laid_step(image, words, i as int);
            let next = with_field(image, slot(i as int), image.len() as u64) + words[i as int];
            assert(patched =~= before + with_field(image, slot(i as int), image.len() as u64));
            assert(bytes@ =~= patched + word@);
            assert(bytes@ =~= before + next);
            image = next;
        }
        i += 1;
    }
    let total = bytes.len();
    proof {
        assert(image.len() <= total);
        lemma_laid_end(image, words);
        lemma_layout_unique(image, words);
    }
}

/// Decodes `bytes` in place. The buffer is first walked to see that it holds
/// a header, a whole table and exactly the payload that the lengths add up
/// to; then every position in it is rewritten to where its data stands in
/// `bytes`, and every capacity to the length beside it. A buffer that is
/// refused is left as it was.
pub fn decode_abom_lean<'a>(bytes: &'a mut [u8]) -> (r: Result<DecodedWords<'a>, CodecError>)
    ensures
        match r {
            Ok(decoded) => relocatable_decoding(old(bytes)@) == Some(decoded@) && final(bytes)@
                == relocatable_encoding(decoded@) && decoded.arena() == final(bytes)@,
            Err(e) => e == CodecError::CorruptEncoding && relocatable_decoding(old(bytes)@)
                is None && final(bytes)@ == old(bytes)@,
        },
{
    let total = bytes.len();
    if total < 24 {
        return Err(CodecError::CorruptEncoding);
    }
    let count = get_field(bytes, 16);
    if count > ((total - 24) / 24) as u64 {
        return Err(CodecError::CorruptEncoding);
    }
    let n = count as usize;
    let mut position: usize = 24 + 24 * n;
    let mut i: usize = 0;
    while i < n
        invariant
            i <= n,
            bytes@ == old(bytes)@,
            total == bytes@.len(),
            n == stored_count(bytes@),
            payload_start(n as int) <= total,
            position == walk(bytes@, i as int),
            position <= total,
        decreases n - i,
    {
        let length = get_field(bytes, 24 + 24 * i + 16);
        if length > (total - position) as u64 {
            proof {
                lemma_walk_monotone(bytes@, i + 1, n as int);
            }
            return Err(CodecError::CorruptEncoding);
        }
        position = position + length as usize;
        i += 1;
    }
    if position != total {
        return Err(CodecError::CorruptEncoding);
    }
    let ghost before = bytes@;
    put_field(bytes, 0, 24);
    put_field(bytes, 8, count);
    proof {
        lemma_patch_start(before);
    }
    position = 24 + 24 * n;
    i = 0;
    while i < n
        invariant
            i <= n,
            before == old(bytes)@,
            well_formed(before),
            total == before.len(),
            n == stored_count(before),
            patched(bytes@, before, i as int),
            position == walk(before, i as int),
            position <= total,
        decreases n - i,
    {
        let ghost image = bytes@;
        proof {
            lemma_patch_step(image, before, i as int);
            assert(stored_len(image, i as int) == stored_len(before, i as int));
        }
        let length = get_field(bytes, 24 + 24 * i + 16);
        put_field(bytes, 24 + 24 * i, position as u64);
        put_field(bytes, 24 + 24 * i + 8, length);
        position = position + length as usize;
        i += 1;
    }
    proof {
        lemma_patch_end(bytes@, before);
        lemma_layout_decodes(bytes@, stored_words(before));
        lemma_layout_unique(bytes@, stored_words(before));
    }
    let arena: &'a [u8] = bytes;
    Ok(DecodedWords { arena, count: n })
}

/// The checksum of word `n` of what `bytes` decodes to.
pub open spec fn nth_byte_sum(bytes: Seq<u8>, n: int) -> Result<u32, CodecError> {
    match relocatable_decoding(bytes) {
        Some(words) => if 0 <= n < words.len() {
            Ok(word_checksum(words[n]))
        } else {
            Err(CodecError::IndexOutOfRange)
        },
        None => Err(CodecError::CorruptEncoding),
    }
}

/// The checksum of all the words that `bytes` decodes to.
pub open spec fn all_byte_sum(bytes: Seq<u8>) -> Result<u32, CodecError> {
    match relocatable_decoding(bytes) {
        Some(words) => Ok(sequence_checksum(words)),
        None => Err(CodecError::CorruptEncoding),
    }
}

/// What decoding leaves in a buffer that held `bytes`: the encoding of the
/// words, or `bytes` where they are refused.
pub open spec fn relocated(bytes: Seq<u8>) -> Seq<u8> {
    match relocatable_decoding(bytes) {
        Some(words) => relocatable_encoding(words),
        None => bytes,
    }
}

/// Decodes `bytes` in place and gives the checksum of word `n`.
pub fn decode_abom_and_get_nth_byte_sum(bytes: &mut [u8], n: usize) -> (r: Result<
    u32,
    CodecError,
>)
    ensures
        r == nth_byte_sum(old(bytes)@, n as int),
        final(bytes)@ == relocated(old(bytes)@),
{
    match decode_abom_lean(bytes) {
        Ok(decoded) => sum_one(&decoded, n),
        Err(e) => Err(e),
    }
}

/// Decodes `bytes` in place and gives the checksum of all its words.
pub fn decode_abom_and_get_all_byte_sum(bytes: &mut [u8]) -> (r: Result<u32, CodecError>)
    ensures
        r == all_byte_sum(old(bytes)@),
        final(bytes)@ == relocated(old(bytes)@),
{
    match decode_abom_lean(bytes) {
        Ok(decoded) => {
            proof {
                assert(resolved(decoded.entries()) =~= decoded@);
            }
            sum_all(&decoded)
        },
        Err(e) => Err(e),
    }
}

} // verus!
