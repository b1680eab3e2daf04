use crate::fields::{field, lemma_field_bytes};
use vstd::bytes::{lemma_auto_spec_u64_to_from_le_bytes, spec_u64_to_le_bytes};
use vstd::prelude::*;

verus! {

/// The bytes of all words, one after the other.
pub open spec fn payload(words: Seq<Seq<u8>>) -> Seq<u8>
    decreases words.len(),
{
    if words.len() == 0 {
        Seq::empty()
    } else {
        payload(words.drop_last()) + words.last()
    }
}

/// How many payload bytes stand before word `i`.
pub open spec fn word_offset(words: Seq<Seq<u8>>, i: int) -> int {
    payload(words.take(i)).len() as int
}

/// Where the header of element `i` begins.
pub open spec fn slot(i: int) -> int {
    24 + 24 * i
}

/// Where the payload of a sequence of `count` words begins.
pub open spec fn payload_start(count: int) -> int {
    24 + 24 * count
}

/// The length of the encoding of `words`.
pub open spec fn encoded_len(words: Seq<Seq<u8>>) -> int {
    payload_start(words.len() as int) + payload(words).len()
}

/// One header: the position of the data, then its length twice, as capacity
/// and as length.
pub open spec fn header(position: u64, length: u64) -> Seq<u8> {
    spec_u64_to_le_bytes(position) + spec_u64_to_le_bytes(length) + spec_u64_to_le_bytes(length)
}

/// The header of word `i`: it points at the word's first byte, counted from
/// the start of the encoding.
pub open spec fn entry(words: Seq<Seq<u8>>, i: int) -> Seq<u8> {
    header(
        (payload_start(words.len() as int) + word_offset(words, i)) as u64,
        words[i].len() as u64,
    )
}

/// The headers of the first `k` words.
pub open spec fn table(words: Seq<Seq<u8>>, k: int) -> Seq<u8>
    decreases k,
{
    if k <= 0 {
        Seq::empty()
    } else {
        table(words, k - 1) + entry(words, k - 1)
    }
}

/// The relocatable encoding: the header of the sequence, which points at the
/// table; the table of word headers; the payload.
pub open spec fn relocatable_encoding(words: Seq<Seq<u8>>) -> Seq<u8> {
    header(24, words.len() as u64) + table(words, words.len() as int) + payload(words)
}

/// The number of words that `bytes` claims to hold.
pub open spec fn stored_count(bytes: Seq<u8>) -> int {
    field(bytes, 16) as int
}

/// The length that `bytes` claims for word `i`.
pub open spec fn stored_len(bytes: Seq<u8>, i: int) -> int {
    field(bytes, slot(i) + 16) as int
}

/// Where word `i` begins when the payload is consumed word by word.
pub open spec fn walk(bytes: Seq<u8>, i: int) -> int
    decreases i,
{
    if i <= 0 {
        payload_start(stored_count(bytes))
    } else {
        walk(bytes, i - 1) + stored_len(bytes, i - 1)
    }
}

/// `bytes` holds a header, a whole table, and exactly the payload that the
/// table's lengths add up to: nothing is missing and nothing is left over.
pub open spec fn well_formed(bytes: Seq<u8>) -> bool {
    &&& 24 <= bytes.len()
    &&& payload_start(stored_count(bytes)) <= bytes.len()
    &&& walk(bytes, stored_count(bytes)) == bytes.len()
}

/// The bytes of word `i` of a well-formed buffer.
pub open spec fn stored_word(bytes: Seq<u8>, i: int) -> Seq<u8> {
    bytes.subrange(walk(bytes, i), walk(bytes, i + 1))
}

/// The words of a well-formed buffer.
pub open spec fn stored_words(bytes: Seq<u8>) -> Seq<Seq<u8>> {
    Seq::new(stored_count(bytes) as nat, |i: int| stored_word(bytes, i))
}

/// What decoding `bytes` yields. Only lengths are read: positions and
/// capacities may hold anything, and the words' bytes are taken as they are.
pub open spec fn relocatable_decoding(bytes: Seq<u8>) -> Option<Seq<Seq<u8>>> {
    if well_formed(bytes) {
        Some(stored_words(bytes))
    } else {
        None
    }
}

/// The header of word `i` in `bytes` points at the word and gives its length.
pub open spec fn entry_relocated(bytes: Seq<u8>, words: Seq<Seq<u8>>, i: int) -> bool {
    &&& field(bytes, slot(i)) == payload_start(words.len() as int) + word_offset(words, i)
    &&& field(bytes, slot(i) + 8) == words[i].len()
    &&& field(bytes, slot(i) + 16) == words[i].len()
}

/// `bytes` is a relocated image of `words`: every position in it is a valid
/// reference into `bytes` itself.
pub open spec fn lays_out(bytes: Seq<u8>, words: Seq<Seq<u8>>) -> bool {
    &&& bytes.len() == encoded_len(words)
    &&& bytes.len() <= u64::MAX
    &&& field(bytes, 0) == 24
    &&& field(bytes, 8) == words.len()
    &&& field(bytes, 16) == words.len()
    &&& forall|i: int| 0 <= i < words.len() ==> #[trigger] entry_relocated(bytes, words, i)
    &&& bytes.subrange(payload_start(words.len() as int), bytes.len() as int) == payload(words)
}

/// The payload grows by one word at a time.
pub proof fn lemma_payload_step(words: Seq<Seq<u8>>, i: int)
    requires
        0 <= i < words.len(),
    ensures
        payload(words.take(i + 1)) == payload(words.take(i)) + words[i],
        word_offset(words, i + 1) == word_offset(words, i) + words[i].len(),
{
    let longer = words.take(i + 1);
    assert(longer.drop_last() =~= words.take(i));
    assert(longer.last() == words[i]);
}

/// The payload of the first `i` words is the start of the whole payload.
pub proof fn lemma_payload_prefix(words: Seq<Seq<u8>>, i: int)
    requires
        0 <= i <= words.len(),
    ensures
        word_offset(words, i) <= payload(words).len(),
        payload(words.take(i)) == payload(words).subrange(0, word_offset(words, i)),
    decreases words.len() - i,
{
    if i == words.len() {
        assert(words.take(i) =~= words);
        assert(payload(words).subrange(0, payload(words).len() as int) =~= payload(words));
    } else {
        lemma_payload_prefix(words, i + 1);
        lemma_payload_step(words, i);
        let whole = payload(words);
        let shorter = payload(words.take(i));
        assert(shorter =~= whole.subrange(0, word_offset(words, i)));
    }
}

/// Word `i` stands in the payload between its offset and the next one.
pub proof fn lemma_payload_word(words: Seq<Seq<u8>>, i: int)
    requires
        0 <= i < words.len(),
    ensures
        0 <= word_offset(words, i) <= word_offset(words, i + 1) <= payload(words).len(),
        payload(words).subrange(word_offset(words, i), word_offset(words, i + 1)) == words[i],
{
    lemma_payload_prefix(words, i + 1);
    lemma_payload_step(words, i);
    let whole = payload(words);
    let upto = payload(words.take(i + 1));
    assert(whole.subrange(word_offset(words, i), word_offset(words, i + 1)) =~= upto.subrange(
        word_offset(words, i),
        word_offset(words, i + 1),
    ));
    assert(upto.subrange(word_offset(words, i), word_offset(words, i + 1)) =~= words[i]);
}

/// A table of `k` headers takes 24 bytes for each.
pub proof fn lemma_table_len(words: Seq<Seq<u8>>, k: int)
    requires
        0 <= k,
    ensures
        table(words, k).len() == 24 * k,
    decreases k,
{
    lemma_auto_spec_u64_to_from_le_bytes();
    if k > 0 {
        lemma_table_len(words, k - 1);
    }
}

/// Header `i` stands in the table at 24 bytes times `i`.
pub proof fn lemma_table_entry(words: Seq<Seq<u8>>, k: int, i: int)
    requires
        0 <= i < k,
    ensures
        table(words, k).len() == 24 * k,
        table(words, k).subrange(24 * i, 24 * i + 24) == entry(words, i),
    decreases k,
{
    lemma_auto_spec_u64_to_from_le_bytes();
    lemma_table_len(words, k);
    lemma_table_len(words, k - 1);
    if i == k - 1 {
        assert(table(words, k).subrange(24 * i, 24 * i + 24) =~= entry(words, i));
    } else {
        lemma_table_entry(words, k - 1, i);
        assert(table(words, k).subrange(24 * i, 24 * i + 24) =~= table(words, k - 1).subrange(
            24 * i,
            24 * i + 24,
        ));
    }
}

/// The three numbers of a header that stands at `at`.
pub proof fn lemma_header_fields(bytes: Seq<u8>, at: int, position: u64, length: u64)
    requires
        0 <= at,
        at + 24 <= bytes.len(),
        bytes.subrange(at, at + 24) == header(position, length),
    ensures
        field(bytes, at) == position,
        field(bytes, at + 8) == length,
        field(bytes, at + 16) == length,
{
    lemma_auto_spec_u64_to_from_le_bytes();
    let h = header(position, length);
    assert(bytes.subrange(at, at + 8) =~= h.subrange(0, 8));
    assert(bytes.subrange(at + 8, at + 16) =~= h.subrange(8, 16));
    assert(bytes.subrange(at + 16, at + 24) =~= h.subrange(16, 24));
    assert(h.subrange(0, 8) =~= spec_u64_to_le_bytes(position));
    assert(h.subrange(8, 16) =~= spec_u64_to_le_bytes(length));
    assert(h.subrange(16, 24) =~= spec_u64_to_le_bytes(length));
}

/// Twenty-four bytes are the header of the numbers they hold, where the
/// second and the third agree.
pub proof fn lemma_header_bytes(bytes: Seq<u8>, at: int)
    requires
        0 <= at,
        at + 24 <= bytes.len(),
        field(bytes, at + 8) == field(bytes, at + 16),
    ensures
        bytes.subrange(at, at + 24) == header(field(bytes, at), field(bytes, at + 16)),
{
    lemma_field_bytes(bytes, at);
    lemma_field_bytes(bytes, at + 8);
    lemma_field_bytes(bytes, at + 16);
    assert(bytes.subrange(at, at + 24) =~= bytes.subrange(at, at + 8) + bytes.subrange(
        at + 8,
        at + 16,
    ) + bytes.subrange(at + 16, at + 24));
}

/// The encoding takes a header for the sequence, a header for each word, and
/// the payload.
pub proof fn lemma_encoding_len(words: Seq<Seq<u8>>)
    ensures
        relocatable_encoding(words).len() == encoded_len(words),
{
    lemma_auto_spec_u64_to_from_le_bytes();
    lemma_table_len(words, words.len() as int);
}

/// The encoding of `words` is a relocated image of `words`.
pub proof fn lemma_encoding_lays_out(words: Seq<Seq<u8>>)
    requires
        encoded_len(words) <= u64::MAX,
    ensures
        lays_out(relocatable_encoding(words), words),
{
    lemma_auto_spec_u64_to_from_le_bytes();
    let n = words.len() as int;
    let e = relocatable_encoding(words);
    let t = table(words, n);
    lemma_encoding_len(words);
    assert(e.subrange(0, 24) =~= header(24, n as u64));
    lemma_header_fields(e, 0, 24, n as u64);
    assert forall|i: int| 0 <= i < n implies #[trigger] entry_relocated(e, words, i) by {
        lemma_table_entry(words, n, i);
        lemma_payload_word(words, i);
        assert(e.subrange(slot(i), slot(i) + 24) =~= t.subrange(24 * i, 24 * i + 24));
        lemma_header_fields(
            e,
            slot(i),
            (payload_start(n) + word_offset(words, i)) as u64,
            words[i].len() as u64,
        );
    }
    assert(e.subrange(payload_start(n), e.len() as int) =~= payload(words));
}

/// The headers of a relocated image are the table of its words.
pub proof fn lemma_layout_table(bytes: Seq<u8>, words: Seq<Seq<u8>>, k: int)
    requires
        lays_out(bytes, words),
        0 <= k <= words.len(),
    ensures
        bytes.subrange(24, slot(k)) == table(words, k),
    decreases k,
{
    if k == 0 {
        assert(bytes.subrange(24, slot(0)) =~= table(words, 0));
    } else {
        lemma_layout_table(bytes, words, k - 1);
        lemma_payload_word(words, k - 1);
        assert(entry_relocated(bytes, words, k - 1));
        lemma_header_bytes(bytes, slot(k - 1));
        assert(bytes.subrange(24, slot(k)) =~= bytes.subrange(24, slot(k - 1)) + bytes.subrange(
            slot(k - 1),
            slot(k - 1) + 24,
        ));
    }
}

/// A sequence of words has one relocated image: its encoding.
pub proof fn lemma_layout_unique(bytes: Seq<u8>, words: Seq<Seq<u8>>)
    requires
        lays_out(bytes, words),
    ensures
        bytes == relocatable_encoding(words),
{
    let n = words.len() as int;
    lemma_header_bytes(bytes, 0);
    lemma_layout_table(bytes, words, n);
    assert(bytes =~= bytes.subrange(0, 24) + bytes.subrange(24, slot(n)) + bytes.subrange(
        payload_start(n),
        bytes.len() as int,
    ));
}

/// In a relocated image the walk over the payload meets every word where
/// its header points.
pub proof fn lemma_layout_walk(bytes: Seq<u8>, words: Seq<Seq<u8>>, i: int)
    requires
        lays_out(bytes, words),
        0 <= i <= words.len(),
    ensures
        walk(bytes, i) == payload_start(words.len() as int) + word_offset(words, i),
    decreases i,
{
    if i == 0 {
        assert(words.take(0) =~= Seq::<Seq<u8>>::empty());
    } else {
        lemma_layout_walk(bytes, words, i - 1);
        lemma_payload_step(words, i - 1);
        assert(entry_relocated(bytes, words, i - 1));
    }
}

/// Decoding a relocated image of `words` yields `words`.
pub proof fn lemma_layout_decodes(bytes: Seq<u8>, words: Seq<Seq<u8>>)
    requires
        lays_out(bytes, words),
    ensures
        relocatable_decoding(bytes) == Some(words),
{
    let n = words.len() as int;
    lemma_layout_walk(bytes, words, n);
    assert(words.take(n) =~= words);
    assert(well_formed(bytes));
    let decoded = stored_words(bytes);
    assert forall|i: int| 0 <= i < n implies decoded[i] == words[i] by {
        lemma_layout_walk(bytes, words, i);
        lemma_layout_walk(bytes, words, i + 1);
        lemma_payload_word(words, i);
        let p = payload_start(n);
        assert(bytes.subrange(walk(bytes, i), walk(bytes, i + 1)) =~= bytes.subrange(
            p,
            bytes.len() as int,
        ).subrange(word_offset(words, i), word_offset(words, i + 1)));
    }
    assert(decoded =~= words);
}

/// The walk over the payload never goes back.
pub proof fn lemma_walk_monotone(bytes: Seq<u8>, i: int, j: int)
    requires
        0 <= i <= j,
    ensures
        walk(bytes, i) <= walk(bytes, j),
    decreases j,
{
    if i < j {
        lemma_walk_monotone(bytes, i, j - 1);
    }
}

/// In a well-formed buffer the first `k` words are the payload up to where
/// the walk has come.
pub proof fn lemma_walk_payload(bytes: Seq<u8>, k: int)
    requires
        well_formed(bytes),
        0 <= k <= stored_count(bytes),
    ensures
        payload_start(stored_count(bytes)) <= walk(bytes, k) <= bytes.len(),
        payload(stored_words(bytes).take(k)) == bytes.subrange(
            payload_start(stored_count(bytes)),
            walk(bytes, k),
        ),
    decreases k,
{
    let words = stored_words(bytes);
    let start = payload_start(stored_count(bytes));
    lemma_walk_monotone(bytes, 0, k);
    lemma_walk_monotone(bytes, k, stored_count(bytes));
    if k == 0 {
        assert(words.take(0) =~= Seq::<Seq<u8>>::empty());
        assert(payload(words.take(0)) =~= bytes.subrange(start, start));
    } else {
        lemma_walk_payload(bytes, k - 1);
        lemma_payload_step(words, k - 1);
        assert(payload(words.take(k)) =~= bytes.subrange(start, walk(bytes, k)));
    }
}

} // verus!
