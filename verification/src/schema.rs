use crate::checksum::{
    all_resolved, resolved, sequence_checksum, sum_all, sum_one, word_checksum, WordList,
};
use crate::error::CodecError;
use crate::lines::line_bytes;
use vstd::prelude::*;
use vstd::slice::slice_subrange;
use vstd::utf8::encode_utf8;

verus! {

broadcast use vstd::slice::group_slice_axioms;

/// How many words of data a reader may traverse in one message.
pub const TRAVERSAL_LIMIT_WORDS: u64 = 1_000_000_000;

/// The largest message that is built, in words of eight bytes: 2^28. capnp
/// addresses a segment with 29 bits, and no segment of a message grows to
/// twice the words that the message holds.
pub const MESSAGE_WORDS_MAX: usize = 0x1000_0000;

/// The longest text that is stored, in bytes: capnp counts the bytes of a
/// text and its closing zero in 29 bits.
pub const TEXT_BYTES_MAX: usize = 0x1fff_fffe;

/// A Cap'n Proto message under construction whose root is a list of text:
/// a `capnp::message::Builder` over capnp's heap allocator.
#[verifier::external_body]
pub struct WordMessage {
    inner: capnp::message::Builder<capnp::message::HeapAllocator>,
}

/// A Cap'n Proto message that is read in place from words: a
/// `capnp::message::Reader` over `capnp::serialize::SliceSegments`.
#[verifier::external_body]
pub struct ParsedMessage<'a> {
    inner: capnp::message::Reader<capnp::serialize::SliceSegments<'a>>,
}

/// `capnp::Word`: eight bytes, aligned as capnp reads them.
#[verifier::external_type_specification]
#[verifier::external_body]
pub struct ExWord(capnp::Word);

/// `capnp::text_list::Reader`: a list of text inside a message that was read.
#[verifier::external_type_specification]
#[verifier::external_body]
pub struct ExTextListReader<'a>(capnp::text_list::Reader<'a>);

/// `capnp::Error`: why capnp refused to read something.
#[verifier::external_type_specification]
#[verifier::external_body]
pub struct ExCapnpError(capnp::Error);

/// The UTF-8 bytes of the text of each element of the root list of `message`.
pub uninterp spec fn message_words(message: WordMessage) -> Seq<Seq<u8>>;

/// How many elements of the root list of `message` were set, each once and
/// in the order of their indices.
pub uninterp spec fn message_filled(message: WordMessage) -> nat;

/// The bytes that capnp writes for a message of its default builder whose
/// root list was sized to `words.len()` and then filled with `words`, each
/// element once and in the order of the indices.
pub uninterp spec fn message_bytes(words: Seq<Seq<u8>>) -> Seq<u8>;

/// The bytes that `words` hold, in order: what `capnp::Word::words_to_bytes`
/// gives of them.
pub uninterp spec fn word_bytes(words: Seq<capnp::Word>) -> Seq<u8>;

/// What capnp finds in `bytes` under the traversal limit `limit`: nothing
/// where the framing is malformed or the root is no list of pointers; else,
/// for each element of the root list, the UTF-8 bytes of its text, or nothing
/// where the element is no sound text.
pub uninterp spec fn stored_list(bytes: Seq<u8>, limit: u64) -> Option<Seq<Option<Seq<u8>>>>;

/// What the root of `message` holds, as `stored_list` says it of bytes.
pub uninterp spec fn parsed_list(message: ParsedMessage) -> Option<Seq<Option<Seq<u8>>>>;

/// What each element of `list` resolves to: the UTF-8 bytes of its text, or
/// nothing where the element is no sound text.
pub uninterp spec fn list_words(list: capnp::text_list::Reader) -> Seq<Option<Seq<u8>>>;

/// An upper bound on the words that one text of `len` bytes takes in a
/// message: its bytes and the closing zero, rounded up to words, and one
/// word more where it lands in another segment.
pub open spec fn text_words(len: nat) -> nat {
    len / 8 + 2
}

/// The words that the texts of `words` take, by `text_words`.
pub open spec fn texts_demand(words: Seq<Seq<u8>>) -> nat
    decreases words.len(),
{
    if words.len() == 0 {
        0
    } else {
        texts_demand(words.drop_last()) + text_words(words.last().len())
    }
}

/// An upper bound on the words of a message that holds `words`: the root
/// pointer, the list of pointers with one word more, and the texts.
pub open spec fn message_demand(words: Seq<Seq<u8>>) -> nat {
    2 + words.len() + texts_demand(words)
}

/// `words` can be stored in one message: the message stays within
/// `MESSAGE_WORDS_MAX` words and every text within `TEXT_BYTES_MAX` bytes.
pub open spec fn fits_in_message(words: Seq<Seq<u8>>) -> bool {
    &&& message_demand(words) <= MESSAGE_WORDS_MAX
    &&& forall|i: int| 0 <= i < words.len() ==> (#[trigger] words[i]).len() <= TEXT_BYTES_MAX
}

/// `words` with only its first `k` elements in place and empty text elsewhere.
pub open spec fn filled_words(words: Seq<Seq<u8>>, k: int) -> Seq<Seq<u8>> {
    Seq::new(
        words.len(),
        |j: int|
            if j < k {
                words[j]
            } else {
                Seq::empty()
            },
    )
}

/// `capnp::message::Builder::new_default`, then `init_root` and `initn_as`:
/// a message whose root is a list of `count` texts, all empty and none of
/// them set. capnp refuses a list of 2^29 elements or more.
#[verifier::external_body]
fn new_message(count: u32) -> (message: WordMessage)
    requires
        count < 0x2000_0000,
    ensures
        message_words(message) == Seq::new(count as nat, |j: int| Seq::<u8>::empty()),
        message_filled(message) == 0,
{
    let mut inner = capnp::message::Builder::new_default();
    inner.init_root::<capnp::any_pointer::Builder>().initn_as::<capnp::text_list::Builder>(count);
    WordMessage { inner }
}

/// `capnp::text_list::Builder::set` on the root list: element `index` becomes
/// `text`. The elements are set in the order of their indices. capnp refuses
/// an index beyond the list, and a text of 2^29 bytes or more with its closing
/// zero. Its allocator makes each new segment as large as all the segments
/// before it and 1024 words more, or as large as what is asked for if that is
/// more; it adds the sizes up in 32 bits, and a position in a segment has 29
/// bits. A new segment is made only when the last one cannot take what is
/// asked for, so none is as large as twice the words asked for so far, and
/// the sum stays below four times that number: with at most 2^28 words both
/// stay in range. `message_demand` is no less than the words asked for.
#[verifier::external_body]
fn set_word(message: &mut WordMessage, index: u32, text: &str)
    requires
        index == message_filled(*old(message)),
        index < message_words(*old(message)).len(),
        encode_utf8(text@).len() + 1 < 0x2000_0000,
        message_demand(message_words(*old(message)).update(index as int, encode_utf8(text@)))
            <= 0x1000_0000,
    ensures
        message_words(*final(message)) == message_words(*old(message)).update(
            index as int,
            encode_utf8(text@),
        ),
        message_filled(*final(message)) == index + 1,
{
    message.inner.get_root::<capnp::text_list::Builder>().unwrap().set(index, text)
}

/// `capnp::serialize::write_message` into a vector: appends the segment
/// table and the segments of a message whose elements were all set.
#[verifier::external_body]
fn write_message(message: &WordMessage, out: &mut Vec<u8>)
    requires
        message_filled(*message) == message_words(*message).len(),
    ensures
        final(out)@ == old(out)@ + message_bytes(message_words(*message)),
{
    capnp::serialize::write_message(out, &message.inner).unwrap()
}

/// `capnp::Word::allocate_zeroed_vec`, then `capnp::Word::words_to_bytes_mut`
/// to fill what was allocated: `count` words that hold the bytes of `whole`.
#[verifier::external_body]
fn aligned_copy(whole: &[u8], count: usize) -> (words: Vec<capnp::Word>)
    requires
        whole@.len() == 8 * count,
    ensures
        words@.len() == count,
        word_bytes(words@) == whole@,
{
    let mut words = capnp::Word::allocate_zeroed_vec(count);
    capnp::Word::words_to_bytes_mut(&mut words[..]).copy_from_slice(whole);
    words
}

/// `capnp::serialize::read_message_from_words`, with capnp's default nesting
/// limit and the traversal limit `limit`: reads the segment table and finds
/// the segments in `words`, without copying them. It fails on the words in
/// which capnp finds no message.
#[verifier::external_body]
fn read_words<'a>(words: &'a [capnp::Word], limit: u64) -> (r: Result<
    ParsedMessage<'a>,
    capnp::Error,
>)
    ensures
        match r {
            Ok(message) => parsed_list(message) == stored_list(word_bytes(words@), limit),
            Err(_) => stored_list(word_bytes(words@), limit) is None,
        },
{
    let options = *capnp::message::ReaderOptions::new().traversal_limit_in_words(limit);
    match capnp::serialize::read_message_from_words(words, options) {
        Ok(inner) => Ok(ParsedMessage { inner }),
        Err(e) => Err(e),
    }
}

/// `capnp::message::Reader::get_root` as a list of text. A list that it
/// hands out is the root list of the message; where the message has no such
/// root it fails. The words it traverses count against the message's limit,
/// so that it may also fail on a sound root.
#[verifier::external_body]
fn root_list<'a>(message: &'a ParsedMessage<'_>) -> (r: Result<
    capnp::text_list::Reader<'a>,
    capnp::Error,
>)
    ensures
        r matches Ok(list) ==> parsed_list(*message) == Some(list_words(list)),
        parsed_list(*message) is None ==> r is Err,
{
    message.inner.get_root::<capnp::text_list::Reader>()
}

/// `capnp::text_list::Reader::len`: the number of elements.
#[verifier::external_body]
fn list_len(list: capnp::text_list::Reader) -> (n: u32)
    ensures
        n == list_words(list).len(),
{
    list.len()
}

/// `capnp::text_list::Reader::get`, whose text is handed on as its bytes.
/// capnp panics on an index beyond the list. A text that it hands out is the
/// text of element `index`; on an element that is no sound text it fails.
/// The words it traverses count against the message's limit, so that it may
/// also fail on a sound element.
#[verifier::external_body]
fn list_get<'a>(list: capnp::text_list::Reader<'a>, index: u32) -> (r: Result<
    &'a [u8],
    capnp::Error,
>)
    requires
        index < list_words(list).len(),
    ensures
        r matches Ok(word) ==> list_words(list)[index as int] == Some(word@),
        list_words(list)[index as int] is None ==> r is Err,
{
    list.get(index).map(str::as_bytes)
}

/// A decoded sequence: the root list of a message, whose elements are
/// resolved one at a time, when they are asked for.
pub struct SchemaWords<'a> {
    list: capnp::text_list::Reader<'a>,
}

impl<'a> WordList for SchemaWords<'a> {
    closed spec fn entries(&self) -> Seq<Option<Seq<u8>>> {
        list_words(self.list)
    }

    open spec fn budgeted(&self) -> bool {
        true
    }

    fn length(&self) -> (n: usize) {
        list_len(self.list) as usize
    }

    fn word(&self, index: usize) -> (r: Result<&[u8], CodecError>) {
        let count = list_len(self.list);
        if index >= count as usize {
            Err(CodecError::IndexOutOfRange)
        } else {
            match list_get(self.list, index as u32) {
                Ok(word) => Ok(word),
                Err(_) => Err(CodecError::CorruptEncoding),
            }
        }
    }
}

/// Texts that are no longer take no more words.
pub proof fn lemma_texts_demand_monotone(shorter: Seq<Seq<u8>>, longer: Seq<Seq<u8>>)
    requires
        shorter.len() == longer.len(),
        forall|j: int| 0 <= j < shorter.len() ==> shorter[j].len() <= longer[j].len(),
    ensures
        texts_demand(shorter) <= texts_demand(longer),
    decreases shorter.len(),
{
    if shorter.len() > 0 {
        lemma_texts_demand_monotone(shorter.drop_last(), longer.drop_last());
    }
}

/// The first words of a sequence take no more than all of them.
pub proof fn lemma_texts_demand_prefix(words: Seq<Seq<u8>>, k: int)
    requires
        0 <= k <= words.len(),
    ensures
        texts_demand(words.take(k)) <= texts_demand(words),
    decreases words.len() - k,
{
    if k < words.len() {
        lemma_texts_demand_prefix(words, k + 1);
        assert(words.take(k + 1).drop_last() =~= words.take(k));
    } else {
        assert(words.take(k) =~= words);
    }
}

/// The words that a message for `lines` takes at most, by `message_demand`;
/// `None` where that is more than `MESSAGE_WORDS_MAX`.
pub fn message_demand_of(lines: &Vec<String>) -> (r: Option<usize>)
    ensures
        match r {
            Some(demand) => demand == message_demand(line_bytes(lines@)) && demand
                <= MESSAGE_WORDS_MAX,
            None => message_demand(line_bytes(lines@)) > MESSAGE_WORDS_MAX,
        },
{
    let n = lines.len();
    let ghost words = line_bytes(lines@);
    if n > MESSAGE_WORDS_MAX - 2 {
        return None;
    }
    let mut total: usize = 2 + n;
    let mut i: usize = 0;
    assert(words.take(0) =~= Seq::<Seq<u8>>::empty());
    while i < n
        invariant
            i <= n,
            n == lines.len(),
            n <= MESSAGE_WORDS_MAX,
            words == line_bytes(lines@),
            total == 2 + n + texts_demand(words.take(i as int)),
            total <= MESSAGE_WORDS_MAX,
        decreases n - i,
    {
        let len = lines[i].as_str().as_bytes().len();
        let more = len / 8 + 2;
        proof {
            assert(words.take(i + 1).drop_last() =~= words.take(i as int));
            assert(words.take(i + 1).last() == words[i as int]);
            lemma_texts_demand_prefix(words, i + 1);
        }
        if more > MESSAGE_WORDS_MAX - total {
            return None;
        }
        total = total + more;
        i += 1;
    }
    assert(words.take(n as int) =~= words);
    Some(total)
}

/// Whether `lines` can be stored in one message: what `encode_capn_lean`
/// asks of its input.
pub fn fits_message(lines: &Vec<String>) -> (ok: bool)
    ensures
        ok == fits_in_message(line_bytes(lines@)),
{
    if message_demand_of(lines).is_none() {
        return false;
    }
    let n = lines.len();
    let ghost words = line_bytes(lines@);
    let mut i: usize = 0;
    while i < n
        invariant
            i <= n,
            n == lines.len(),
            words == line_bytes(lines@),
            forall|j: int| 0 <= j < i ==> (#[trigger] words[j]).len() <= TEXT_BYTES_MAX,
        decreases n - i,
    {
        if lines[i].as_str().as_bytes().len() > TEXT_BYTES_MAX {
            assert(words[i as int].len() > TEXT_BYTES_MAX);
            return false;
        }
        i += 1;
    }
    true
}

/// Appends to `bytes` the Cap'n Proto message whose root is the list of the
/// texts of `lines`: a list of that length is made, element `i` is set to
/// line `i` for each `i` in turn, and the message is written with its
/// segment table.
///
/// One message holds at most `MESSAGE_WORDS_MAX` words, 2 GiB, counted by
/// `message_demand`, and no text longer than `TEXT_BYTES_MAX` bytes: beyond
/// that capnp cannot address what it stores. `fits_message` tells whether
/// `lines` are within both.
pub fn encode_capn_lean(lines: &Vec<String>, bytes: &mut Vec<u8>)
    requires
        fits_in_message(line_bytes(lines@)),
    ensures
        final(bytes)@ == old(bytes)@ + message_bytes(line_bytes(lines@)),
{
    let n = lines.len();
    let ghost words = line_bytes(lines@);
    let mut message = new_message(n as u32);
    assert(message_words(message) =~= filled_words(words, 0));
    let mut i: usize = 0;
    while i < n
        invariant
            i <= n,
            n == lines.len(),
            n < 0x2000_0000,
            words == line_bytes(lines@),
            fits_in_message(words),
            message_words(message) == filled_words(words, i as int),
            message_filled(message) == i,
        decreases n - i,
    {
        let text = lines[i].as_str();
        proof {
            let next = filled_words(words, i as int).update(i as int, words[i as int]);
            assert(next =~= filled_words(words, i + 1));
            lemma_texts_demand_monotone(next, words);
            assert(words[i as int].len() <= TEXT_BYTES_MAX);
        }
        set_word(&mut message, i as u32, text);
        i += 1;
    }
    assert(filled_words(words, n as int) =~= words);
    write_message(&message, bytes);
}

/// The whole words of eight bytes at the start of `bytes`: what is read as a
/// message. Up to seven bytes at the end belong to no word.
pub open spec fn whole_words(bytes: Seq<u8>) -> Seq<u8> {
    bytes.subrange(0, 8 * (bytes.len() as int / 8))
}

/// What the message in `bytes` holds, under `TRAVERSAL_LIMIT_WORDS`.
pub open spec fn message_list(bytes: Seq<u8>) -> Option<Seq<Option<Seq<u8>>>> {
    stored_list(whole_words(bytes), TRAVERSAL_LIMIT_WORDS)
}

/// The bytes of a message, copied to where capnp reads them in place. The
/// copy is as large as the bytes it is made of, whatever they claim to hold.
pub struct MessageWords {
    words: Vec<capnp::Word>,
}

impl View for MessageWords {
    type V = Seq<u8>;

    closed spec fn view(&self) -> Seq<u8> {
        word_bytes(self.words@)
    }
}

impl MessageWords {
    /// Copies the whole words of `bytes`.
    pub fn copy_of(bytes: &[u8]) -> (copy: MessageWords)
        ensures
            copy@ == whole_words(bytes@),
    {
        let count = bytes.len() / 8;
        let whole = slice_subrange(bytes, 0, count * 8);
        MessageWords { words: aligned_copy(whole, count) }
    }
}

/// Reads the framing of the message in `words`, under the traversal limit
/// `TRAVERSAL_LIMIT_WORDS`. No element is resolved yet.
pub fn parse_message<'a>(words: &'a MessageWords) -> (r: Result<ParsedMessage<'a>, CodecError>)
    ensures
        match r {
            Ok(message) => parsed_list(message) == stored_list(words@, TRAVERSAL_LIMIT_WORDS),
            Err(e) => e == CodecError::CorruptEncoding && stored_list(
                words@,
                TRAVERSAL_LIMIT_WORDS,
            ) is None,
        },
{
    match read_words(words.words.as_slice(), TRAVERSAL_LIMIT_WORDS) {
        Ok(message) => Ok(message),
        Err(_) => Err(CodecError::CorruptEncoding),
    }
}

/// The decoded sequence of `message`: its root list. A message without such
/// a root is refused; the traversal limit may refuse another.
pub fn decode_capn_lean<'a>(message: &'a ParsedMessage<'_>) -> (r: Result<
    SchemaWords<'a>,
    CodecError,
>)
    ensures
        match r {
            Ok(words) => parsed_list(*message) == Some(words.entries()),
            Err(e) => e == CodecError::CorruptEncoding,
        },
        parsed_list(*message) is None ==> r is Err,
{
    match root_list(message) {
        Ok(list) => Ok(SchemaWords { list }),
        Err(_) => Err(CodecError::CorruptEncoding),
    }
}

/// The message in `bytes` holds `words`: its root list has their number of
/// elements, and element `i` resolves to `words[i]`.
pub open spec fn holds_words(bytes: Seq<u8>, words: Seq<Seq<u8>>) -> bool {
    message_list(bytes) == Some(Seq::new(words.len(), |i: int| Some(words[i])))
}

/// What `decode_capn_and_get_nth_byte_sum` may return on `bytes`. Bytes that
/// hold no message are refused. A sum that is returned is the checksum of
/// element `n`, and an index is out of range only where it is not below the
/// length; a message may also be refused where the traversal limit is
/// reached.
pub open spec fn nth_sum_allowed(bytes: Seq<u8>, n: int, r: Result<u32, CodecError>) -> bool {
    match message_list(bytes) {
        Some(entries) => match r {
            Ok(sum) => 0 <= n < entries.len() && entries[n] == Some(resolved(entries)[n]) && sum
                == word_checksum(resolved(entries)[n]),
            Err(CodecError::IndexOutOfRange) => n >= entries.len(),
            Err(CodecError::CorruptEncoding) => true,
        },
        None => r == Err::<u32, CodecError>(CodecError::CorruptEncoding),
    }
}

/// What `decode_capn_and_get_all_byte_sum` may return on `bytes`. Bytes that
/// hold no message are refused. A sum that is returned is the checksum of all
/// elements, which then all resolve; a message may also be refused where an
/// element is malformed or the traversal limit is reached.
pub open spec fn all_sum_allowed(bytes: Seq<u8>, r: Result<u32, CodecError>) -> bool {
    match message_list(bytes) {
        Some(entries) => match r {
            Ok(sum) => all_resolved(entries) && sum == sequence_checksum(resolved(entries)),
            Err(e) => e == CodecError::CorruptEncoding,
        },
        None => r == Err::<u32, CodecError>(CodecError::CorruptEncoding),
    }
}

/// Reads the message in `bytes` and gives the checksum of element `n` of its
/// root list. Only that element is resolved.
pub fn decode_capn_and_get_nth_byte_sum(bytes: &[u8], n: usize) -> (r: Result<u32, CodecError>)
    ensures
        nth_sum_allowed(bytes@, n as int, r),
{
    let words = MessageWords::copy_of(bytes);
    match parse_message(&words) {
        Err(e) => Err(e),
        Ok(message) => match decode_capn_lean(&message) {
            Err(e) => Err(e),
            Ok(list) => sum_one(&list, n),
        },
    }
}

/// Reads the message in `bytes` and gives the checksum of its whole root
/// list, resolving the elements one after the other.
pub fn decode_capn_and_get_all_byte_sum(bytes: &[u8]) -> (r: Result<u32, CodecError>)
    ensures
        all_sum_allowed(bytes@, r),
{
    let words = MessageWords::copy_of(bytes);
    match parse_message(&words) {
        Err(e) => Err(e),
        Ok(message) => match decode_capn_lean(&message) {
            Err(e) => Err(e),
            Ok(list) => sum_all(&list),
        },
    }
}

} // verus!
