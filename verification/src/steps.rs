use crate::fields::{
    field, lemma_field_kept, lemma_with_field, lemma_with_field_beside, lemma_with_field_other,
    with_field,
};
use crate::layout::{
    entry_relocated, header, lays_out, lemma_header_fields, lemma_payload_step,
    lemma_walk_payload, payload, payload_start, slot, stored_count, stored_len, stored_words, walk,
    well_formed, word_offset,
};
use vstd::bytes::lemma_auto_spec_u64_to_from_le_bytes;
use vstd::prelude::*;

verus! {

/// The header of the sequence is written.
pub open spec fn headed(image: Seq<u8>, words: Seq<Seq<u8>>) -> bool {
    &&& field(image, 0) == 24
    &&& field(image, 8) == words.len()
    &&& field(image, 16) == words.len()
}

/// The header of word `j` gives the word's length, as capacity and as length.
pub open spec fn entry_sized(image: Seq<u8>, words: Seq<Seq<u8>>, j: int) -> bool {
    &&& field(image, slot(j) + 8) == words[j].len()
    &&& field(image, slot(j) + 16) == words[j].len()
}

/// The header of word `j` points at the word.
pub open spec fn entry_placed(image: Seq<u8>, words: Seq<Seq<u8>>, j: int) -> bool {
    field(image, slot(j)) == payload_start(words.len() as int) + word_offset(words, j)
}

/// While the table is written: `image` ends after the headers of the first
/// `k` words, which hold lengths and no positions yet.
pub open spec fn tabled(image: Seq<u8>, words: Seq<Seq<u8>>, k: int) -> bool {
    &&& image.len() == slot(k)
    &&& headed(image, words)
    &&& forall|j: int| 0 <= j < k ==> #[trigger] entry_sized(image, words, j)
}

/// While the payload is written: the table is whole, and the first `k` words
/// are laid down with their positions filled in.
pub open spec fn laid(image: Seq<u8>, words: Seq<Seq<u8>>, k: int) -> bool {
    &&& image.len() == payload_start(words.len() as int) + word_offset(words, k)
    &&& headed(image, words)
    &&& forall|j: int| 0 <= j < words.len() ==> #[trigger] entry_sized(image, words, j)
    &&& forall|j: int| 0 <= j < k ==> #[trigger] entry_placed(image, words, j)
    &&& image.subrange(payload_start(words.len() as int), image.len() as int) == payload(
        words.take(k),
    )
}

/// The header of the sequence alone is a table of no words.
pub proof fn lemma_tabled_start(words: Seq<Seq<u8>>)
    requires
        words.len() <= u64::MAX,
    ensures
        tabled(header(24, words.len() as u64), words, 0),
{
    lemma_auto_spec_u64_to_from_le_bytes();
    let h = header(24, words.len() as u64);
    assert(h.subrange(0, 24) =~= h);
    lemma_header_fields(h, 0, 24, words.len() as u64);
}

/// One more header extends the table by one word.
pub proof fn lemma_tabled_step(image: Seq<u8>, words: Seq<Seq<u8>>, k: int, length: u64)
    requires
        tabled(image, words, k),
        0 <= k < words.len(),
        length == words[k].len(),
    ensures
        tabled(image + header(0, length), words, k + 1),
{
    lemma_auto_spec_u64_to_from_le_bytes();
    let h = header(0, length);
    let longer = image + h;
    lemma_field_kept(image, h, 0);
    lemma_field_kept(image, h, 8);
    lemma_field_kept(image, h, 16);
    assert(longer.subrange(slot(k), slot(k) + 24) =~= h);
    lemma_header_fields(longer, slot(k), 0, length);
    assert forall|j: int| 0 <= j < k + 1 implies #[trigger] entry_sized(longer, words, j) by {
        if j < k {
            assert(entry_sized(image, words, j));
            lemma_field_kept(image, h, slot(j) + 8);
            lemma_field_kept(image, h, slot(j) + 16);
        }
    }
}

/// A whole table with no word laid down yet.
pub proof fn lemma_tabled_laid(image: Seq<u8>, words: Seq<Seq<u8>>)
    requires
        tabled(image, words, words.len() as int),
    ensures
        laid(image, words, 0),
{
    assert(words.take(0) =~= Seq::<Seq<u8>>::empty());
    assert(image.subrange(payload_start(words.len() as int), image.len() as int) =~= payload(
        words.take(0),
    ));
}

/// Laying down word `k`: its header receives the position at which the image
/// ends, and the word's bytes follow.
pub proof fn lemma_laid_step(image: Seq<u8>, words: Seq<Seq<u8>>, k: int)
    requires
        laid(image, words, k),
        0 <= k < words.len(),
        image.len() <= u64::MAX,
    ensures
        laid(with_field(image, slot(k), image.len() as u64) + words[k], words, k + 1),
{
    let n = words.len() as int;
    let start = payload_start(n);
    let value = image.len() as u64;
    let patched = with_field(image, slot(k), value);
    let longer = patched + words[k];
    lemma_payload_step(words, k);
    lemma_with_field(image, slot(k), value);
    assert(headed(longer, words)) by {
        lemma_with_field_other(image, slot(k), value, 0);
        lemma_with_field_other(image, slot(k), value, 8);
        lemma_with_field_other(image, slot(k), value, 16);
        lemma_field_kept(patched, words[k], 0);
        lemma_field_kept(patched, words[k], 8);
        lemma_field_kept(patched, words[k], 16);
    }
    assert forall|j: int| 0 <= j < n implies #[trigger] entry_sized(longer, words, j) by {
        assert(entry_sized(image, words, j));
        lemma_with_field_other(image, slot(k), value, slot(j) + 8);
        lemma_with_field_other(image, slot(k), value, slot(j) + 16);
        lemma_field_kept(patched, words[k], slot(j) + 8);
        lemma_field_kept(patched, words[k], slot(j) + 16);
    }
    assert forall|j: int| 0 <= j < k + 1 implies #[trigger] entry_placed(longer, words, j) by {
        lemma_field_kept(patched, words[k], slot(j));
        if j < k {
            assert(entry_placed(image, words, j));
            lemma_with_field_other(image, slot(k), value, slot(j));
        }
    }
    assert(longer.subrange(start, longer.len() as int) == payload(words.take(k + 1))) by {
        lemma_with_field_beside(image, slot(k), value, start, image.len() as int);
        assert(longer.subrange(start, longer.len() as int) =~= patched.subrange(
            start,
            patched.len() as int,
        ) + words[k]);
    }
}

/// With every word laid down the image is a relocated image of the words.
pub proof fn lemma_laid_end(image: Seq<u8>, words: Seq<Seq<u8>>)
    requires
        laid(image, words, words.len() as int),
        image.len() <= u64::MAX,
    ensures
        lays_out(image, words),
{
    assert(words.take(words.len() as int) =~= words);
    assert forall|j: int| 0 <= j < words.len() implies #[trigger] entry_relocated(
        image,
        words,
        j,
    ) by {
        assert(entry_sized(image, words, j));
        assert(entry_placed(image, words, j));
    }
}

/// The header of word `j` points where the walk over `before` meets the word,
/// and gives the word's length as its capacity.
pub open spec fn entry_patched(image: Seq<u8>, before: Seq<u8>, j: int) -> bool {
    &&& field(image, slot(j)) == walk(before, j)
    &&& field(image, slot(j) + 8) == stored_len(before, j)
}

/// While a buffer is relocated: lengths and payload are those of `before`,
/// and the sequence's header and the headers of the first `k` words are
/// fixed up.
pub open spec fn patched(image: Seq<u8>, before: Seq<u8>, k: int) -> bool {
    &&& image.len() == before.len()
    &&& field(image, 0) == 24
    &&& field(image, 8) == stored_count(before)
    &&& stored_count(image) == stored_count(before)
    &&& forall|j: int|
        0 <= j < stored_count(before) ==> #[trigger] stored_len(image, j) == stored_len(before, j)
    &&& forall|j: int| 0 <= j < k ==> #[trigger] entry_patched(image, before, j)
    &&& image.subrange(payload_start(stored_count(before)), image.len() as int)
        == before.subrange(payload_start(stored_count(before)), before.len() as int)
}

/// Fixing up the header of the sequence.
pub proof fn lemma_patch_start(before: Seq<u8>)
    requires
        well_formed(before),
    ensures
        patched(
            with_field(with_field(before, 0, 24), 8, stored_count(before) as u64),
            before,
            0,
        ),
{
    let n = stored_count(before);
    let start = payload_start(n);
    let one = with_field(before, 0, 24);
    let two = with_field(one, 8, n as u64);
    lemma_with_field(before, 0, 24);
    lemma_with_field(one, 8, n as u64);
    lemma_with_field_other(one, 8, n as u64, 0);
    lemma_with_field_other(before, 0, 24, 16);
    lemma_with_field_other(one, 8, n as u64, 16);
    assert forall|j: int| 0 <= j < n implies #[trigger] stored_len(two, j) == stored_len(
        before,
        j,
    ) by {
        lemma_with_field_other(before, 0, 24, slot(j) + 16);
        lemma_with_field_other(one, 8, n as u64, slot(j) + 16);
    }
    lemma_with_field_beside(before, 0, 24, start, before.len() as int);
    lemma_with_field_beside(one, 8, n as u64, start, before.len() as int);
}

/// Fixing up the header of word `k`.
pub proof fn lemma_patch_step(image: Seq<u8>, before: Seq<u8>, k: int)
    requires
        well_formed(before),
        before.len() <= u64::MAX,
        patched(image, before, k),
        0 <= k < stored_count(before),
    ensures
        0 <= walk(before, k) <= walk(before, k + 1) <= before.len(),
        patched(
            with_field(
                with_field(image, slot(k), walk(before, k) as u64),
                slot(k) + 8,
                stored_len(before, k) as u64,
            ),
            before,
            k + 1,
        ),
{
    let n = stored_count(before);
    let start = payload_start(n);
    let position = walk(before, k) as u64;
    let capacity = stored_len(before, k) as u64;
    lemma_walk_payload(before, k);
    lemma_walk_payload(before, k + 1);
    let one = with_field(image, slot(k), position);
    let two = with_field(one, slot(k) + 8, capacity);
    lemma_with_field(image, slot(k), position);
    lemma_with_field(one, slot(k) + 8, capacity);
    lemma_with_field_other(one, slot(k) + 8, capacity, slot(k));
    assert(field(two, 0) == 24 && field(two, 8) == n && stored_count(two) == n) by {
        lemma_with_field_other(image, slot(k), position, 0);
        lemma_with_field_other(one, slot(k) + 8, capacity, 0);
        lemma_with_field_other(image, slot(k), position, 8);
        lemma_with_field_other(one, slot(k) + 8, capacity, 8);
        lemma_with_field_other(image, slot(k), position, 16);
        lemma_with_field_other(one, slot(k) + 8, capacity, 16);
    }
    assert forall|j: int| 0 <= j < n implies #[trigger] stored_len(two, j) == stored_len(
        before,
        j,
    ) by {
        assert(stored_len(image, j) == stored_len(before, j));
        lemma_with_field_other(image, slot(k), position, slot(j) + 16);
        lemma_with_field_other(one, slot(k) + 8, capacity, slot(j) + 16);
    }
    assert forall|j: int| 0 <= j < k + 1 implies #[trigger] entry_patched(two, before, j) by {
        if j < k {
            assert(entry_patched(image, before, j));
            lemma_with_field_other(image, slot(k), position, slot(j));
            lemma_with_field_other(one, slot(k) + 8, capacity, slot(j));
            lemma_with_field_other(image, slot(k), position, slot(j) + 8);
            lemma_with_field_other(one, slot(k) + 8, capacity, slot(j) + 8);
        }
    }
    lemma_with_field_beside(image, slot(k), position, start, before.len() as int);
    lemma_with_field_beside(one, slot(k) + 8, capacity, start, before.len() as int);
}

/// With every header fixed up the buffer is a relocated image of the words
/// it held.
pub proof fn lemma_patch_end(image: Seq<u8>, before: Seq<u8>)
    requires
        well_formed(before),
        before.len() <= u64::MAX,
        patched(image, before, stored_count(before)),
    ensures
        lays_out(image, stored_words(before)),
{
    let n = stored_count(before);
    let words = stored_words(before);
    lemma_walk_payload(before, n);
    assert(words.take(n) =~= words);
    assert forall|i: int| 0 <= i < words.len() implies #[trigger] entry_relocated(
        image,
        words,
        i,
    ) by {
        lemma_walk_payload(before, i);
        lemma_walk_payload(before, i + 1);
        assert(entry_patched(image, before, i));
        assert(stored_len(image, i) == stored_len(before, i));
    }
}

} // verus!
