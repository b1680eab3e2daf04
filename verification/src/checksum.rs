use crate::error::CodecError;
use vstd::prelude::*;
use vstd::utf8::encode_utf8;

verus! {

/// The byte values of `bytes` added up, without any reduction.
pub open spec fn byte_total(bytes: Seq<u8>) -> nat
    decreases bytes.len(),
{
    if bytes.len() == 0 {
        0
    } else {
        byte_total(bytes.drop_last()) + bytes.last() as nat
    }
}

/// The checksum of one word: its byte values added up modulo 2^32.
pub open spec fn word_checksum(bytes: Seq<u8>) -> u32 {
    (byte_total(bytes) % 0x1_0000_0000) as u32
}

/// The byte values of every word of `words` added up, without any reduction.
pub open spec fn words_total(words: Seq<Seq<u8>>) -> nat
    decreases words.len(),
{
    if words.len() == 0 {
        0
    } else {
        words_total(words.drop_last()) + byte_total(words.last())
    }
}

/// The checksum of a whole sequence: the checksums of its words added up
/// modulo 2^32, which is the total of all byte values modulo 2^32.
pub open spec fn sequence_checksum(words: Seq<Seq<u8>>) -> u32 {
    (words_total(words) % 0x1_0000_0000) as u32
}

/// Adding a value to a sum that was already reduced gives the reduced sum.
pub proof fn lemma_wrapping_step(acc: nat, more: nat)
    ensures
        (((acc % 0x1_0000_0000) + (more % 0x1_0000_0000)) % 0x1_0000_0000) == (acc + more)
            % 0x1_0000_0000,
{
    vstd::arithmetic::div_mod::lemma_add_mod_noop(acc as int, more as int, 0x1_0000_0000);
}

/// The wrapping sum of the bytes of `bytes`.
pub fn sum_bytes(bytes: &[u8]) -> (sum: u32)
    ensures
        sum == word_checksum(bytes@),
{
    let mut res: u32 = 0;
    let mut i: usize = 0;
    while i < bytes.len()
        invariant
            i <= bytes.len(),
            res == word_checksum(bytes@.take(i as int)),
        decreases bytes.len() - i,
    {
        let b: u8 = bytes[i];
        proof {
            let before = bytes@.take(i as int);
            let after = bytes@.take(i + 1);
            assert(after.drop_last() == before);
            assert(after.last() == b);
            lemma_wrapping_step(byte_total(before), b as nat);
        }
        res = res.wrapping_add(b as u32);
        i += 1;
    }
    assert(bytes@.take(i as int) == bytes@);
    res
}

/// The wrapping sum of the UTF-8 bytes of `s`.
pub fn byte_sum(s: &str) -> (sum: u32)
    ensures
        sum == word_checksum(encode_utf8(s@)),
{
    sum_bytes(s.as_bytes())
}

/// Every element of `entries` can be read.
pub open spec fn all_resolved(entries: Seq<Option<Seq<u8>>>) -> bool {
    forall|i: int| 0 <= i < entries.len() ==> (#[trigger] entries[i]) is Some
}

/// The words that the elements of `entries` resolve to.
pub open spec fn resolved(entries: Seq<Option<Seq<u8>>>) -> Seq<Seq<u8>> {
    Seq::new(
        entries.len(),
        |i: int|
            match entries[i] {
                Some(word) => word,
                None => Seq::empty(),
            },
    )
}

/// What both codecs expose of a decoded sequence: its length, and the bytes of
/// one element at a time.
pub trait WordList {
    /// What each element resolves to: its bytes, or nothing where the element
    /// is malformed.
    spec fn entries(&self) -> Seq<Option<Seq<u8>>>;

    /// Whether reading is counted against a budget, so that a read may be
    /// refused although the element itself is sound.
    spec fn budgeted(&self) -> bool;

    /// The number of elements.
    fn length(&self) -> (n: usize)
        ensures
            n == self.entries().len(),
    ;

    /// The bytes of element `index`.
    fn word(&self, index: usize) -> (r: Result<&[u8], CodecError>)
        ensures
            match r {
                Ok(w) => index < self.entries().len() && self.entries()[index as int] == Some(
                    w@,
                ),
                Err(CodecError::IndexOutOfRange) => index >= self.entries().len(),
                Err(CodecError::CorruptEncoding) => index < self.entries().len() && (
                !self.budgeted() ==> self.entries()[index as int] is None),
            },
    ;
}

/// The checksum of element `n` of `list`.
pub fn sum_one<L: WordList>(list: &L, n: usize) -> (r: Result<u32, CodecError>)
    ensures
        match r {
            Ok(sum) => n < list.entries().len() && list.entries()[n as int] == Some(
                resolved(list.entries())[n as int],
            ) && sum == word_checksum(resolved(list.entries())[n as int]),
            Err(CodecError::IndexOutOfRange) => n >= list.entries().len(),
            Err(CodecError::CorruptEncoding) => n < list.entries().len() && (!list.budgeted()
                ==> list.entries()[n as int] is None),
        },
{
    match list.word(n) {
        Ok(w) => Ok(sum_bytes(w)),
        Err(e) => Err(e),
    }
}

/// The checksum of the whole of `list`. A list without elements gives 0, and
/// no element is read for it.
pub fn sum_all<L: WordList>(list: &L) -> (r: Result<u32, CodecError>)
    ensures
        list.entries().len() == 0 ==> r == Ok::<u32, CodecError>(0),
        match r {
            Ok(sum) => all_resolved(list.entries()) && sum == sequence_checksum(
                resolved(list.entries()),
            ),
            Err(e) => e == CodecError::CorruptEncoding && (!list.budgeted() ==> !all_resolved(
                list.entries(),
            )),
        },
{
    let count = list.length();
    let ghost words = resolved(list.entries());
    let mut res: u32 = 0;
    let mut i: usize = 0;
    while i < count
        invariant
            i <= count,
            count == list.entries().len(),
            words == resolved(list.entries()),
            forall|j: int| 0 <= j < i ==> (#[trigger] list.entries()[j]) is Some,
            res == sequence_checksum(words.take(i as int)),
        decreases count - i,
    {
        match list.word(i) {
            Ok(w) => {
                let sum = sum_bytes(w);
                proof {
                    let before = words.take(i as int);
                    let after = words.take(i + 1);
                    assert(after.drop_last() == before);
                    assert(after.last() == w@);
                    lemma_wrapping_step(words_total(before), byte_total(w@));
                }
                res = res.wrapping_add(sum);
            },
            Err(_) => {
                return Err(CodecError::CorruptEncoding);
            },
        }
        i += 1;
    }
    assert(words.take(i as int) == words);
    Ok(res)
}

} // verus!
