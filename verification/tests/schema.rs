use linecodec::error::CodecError;
use linecodec::relocatable::{decode_abom_and_get_all_byte_sum, encode_abom_lean};
use linecodec::checksum::{sum_all, sum_one, WordList};
use linecodec::schema::{
    decode_capn_and_get_all_byte_sum, decode_capn_and_get_nth_byte_sum, decode_capn_lean,
    encode_capn_lean, fits_message, message_demand_of, parse_message, MessageWords,
};

fn lines(texts: &[&str]) -> Vec<String> {
    texts.iter().map(|t| t.to_string()).collect()
}

fn message(texts: &[&str]) -> Vec<u8> {
    let mut buffer = Vec::new();
    encode_capn_lean(&lines(texts), &mut buffer);
    buffer
}

#[test]
fn message_of_two_words_byte_by_byte() {
    let expected: Vec<u8> = vec![
        0, 0, 0, 0, 5, 0, 0, 0, // one segment of five words
        1, 0, 0, 0, 0x16, 0, 0, 0, // root: list of two pointers
        5, 0, 0, 0, 0x1a, 0, 0, 0, // three bytes, one word on
        5, 0, 0, 0, 0x12, 0, 0, 0, // two bytes, one word on
        b'a', b'b', 0, 0, 0, 0, 0, 0, //
        b'c', 0, 0, 0, 0, 0, 0, 0,
    ];
    assert_eq!(message(&["ab", "c"]), expected);
}

#[test]
fn message_is_appended() {
    let mut buffer = vec![1u8, 2, 3];
    encode_capn_lean(&lines(&["ab", "c"]), &mut buffer);
    assert_eq!(&buffer[..3], &[1u8, 2, 3]);
    assert_eq!(&buffer[3..], &message(&["ab", "c"])[..]);
}

#[test]
fn example_sums_schema() {
    let buffer = message(&["ab", "c"]);
    assert_eq!(decode_capn_and_get_nth_byte_sum(&buffer, 0), Ok(195));
    assert_eq!(decode_capn_and_get_nth_byte_sum(&buffer, 1), Ok(99));
    assert_eq!(decode_capn_and_get_all_byte_sum(&buffer), Ok(294));
}

#[test]
fn roundtrip_through_capnp_keeps_every_line() {
    let texts = ["first line", "", "third", "na\u{ef}ve \u{20ac}", "x"];
    let buffer = message(&texts);
    let reader = capnp::serialize::read_message(
        &mut &buffer[..],
        capnp::message::ReaderOptions::new(),
    )
    .unwrap();
    let list = reader.get_root::<capnp::text_list::Reader>().unwrap();
    assert_eq!(list.len() as usize, texts.len());
    for (i, text) in texts.iter().enumerate() {
        assert_eq!(list.get(i as u32).unwrap(), *text);
    }
}

#[test]
fn nth_sum_is_byte_sum_of_that_line_schema() {
    let texts = ["zero", "one", "two", "three", ""];
    let buffer = message(&texts);
    for (n, text) in texts.iter().enumerate() {
        let expected: u32 = text.bytes().map(|b| b as u32).sum();
        assert_eq!(decode_capn_and_get_nth_byte_sum(&buffer, n), Ok(expected));
    }
}

#[test]
fn index_at_length_is_out_of_range_schema() {
    let buffer = message(&["ab", "c"]);
    assert_eq!(decode_capn_and_get_nth_byte_sum(&buffer, 2), Err(CodecError::IndexOutOfRange));
    assert_eq!(
        decode_capn_and_get_nth_byte_sum(&buffer, (1usize << 32) + 1),
        Err(CodecError::IndexOutOfRange)
    );
    let empty = message(&[]);
    assert_eq!(decode_capn_and_get_nth_byte_sum(&empty, 0), Err(CodecError::IndexOutOfRange));
}

#[test]
fn roundtrip_of_empty_input_schema() {
    let buffer = message(&[]);
    assert_eq!(decode_capn_and_get_all_byte_sum(&buffer), Ok(0));
    let reader = capnp::serialize::read_message(
        &mut &buffer[..],
        capnp::message::ReaderOptions::new(),
    )
    .unwrap();
    assert_eq!(reader.get_root::<capnp::text_list::Reader>().unwrap().len(), 0);
}

#[test]
fn truncated_by_one_byte_is_corrupt_schema() {
    for texts in [&["ab", "c"][..], &[][..], &["", ""][..], &["only"][..]] {
        let mut buffer = message(texts);
        buffer.pop();
        assert_eq!(decode_capn_and_get_nth_byte_sum(&buffer, 0), Err(CodecError::CorruptEncoding));
        assert_eq!(decode_capn_and_get_all_byte_sum(&buffer), Err(CodecError::CorruptEncoding));
    }
}

#[test]
fn bytes_that_are_no_message_are_corrupt() {
    assert_eq!(decode_capn_and_get_all_byte_sum(&[]), Err(CodecError::CorruptEncoding));
    assert_eq!(decode_capn_and_get_all_byte_sum(&[0xff; 16]), Err(CodecError::CorruptEncoding));
    // a root that is a struct, not a list
    let no_list: Vec<u8> = vec![
        0, 0, 0, 0, 2, 0, 0, 0, // one segment of two words
        0, 0, 0, 0, 1, 0, 0, 0, // root: a struct of one data word
        0, 0, 0, 0, 0, 0, 0, 0,
    ];
    assert_eq!(decode_capn_and_get_all_byte_sum(&no_list), Err(CodecError::CorruptEncoding));
    assert_eq!(decode_capn_and_get_nth_byte_sum(&no_list, 0), Err(CodecError::CorruptEncoding));
}

#[test]
fn a_pointer_out_of_bounds_is_corrupt() {
    let mut buffer = message(&["ab", "c"]);
    // element 1 now points far beyond the segment
    buffer[24] = 0xfd;
    buffer[25] = 0xff;
    assert_eq!(decode_capn_and_get_nth_byte_sum(&buffer, 0), Ok(195));
    assert_eq!(decode_capn_and_get_nth_byte_sum(&buffer, 1), Err(CodecError::CorruptEncoding));
    assert_eq!(decode_capn_and_get_all_byte_sum(&buffer), Err(CodecError::CorruptEncoding));
}

#[test]
fn a_text_that_is_no_utf8_is_corrupt() {
    let mut buffer = message(&["ab", "c"]);
    buffer[32] = 0xff;
    assert_eq!(decode_capn_and_get_nth_byte_sum(&buffer, 0), Err(CodecError::CorruptEncoding));
    assert_eq!(decode_capn_and_get_nth_byte_sum(&buffer, 1), Ok(99));
}

#[test]
fn a_message_over_the_traversal_limit_is_corrupt() {
    // a segment table that claims more than 10^9 words
    let mut buffer: Vec<u8> = vec![0, 0, 0, 0];
    buffer.extend_from_slice(&1_000_000_001u32.to_le_bytes());
    buffer.extend_from_slice(&[0u8; 64]);
    assert_eq!(decode_capn_and_get_all_byte_sum(&buffer), Err(CodecError::CorruptEncoding));
}

#[test]
fn many_lines_span_several_segments() {
    let texts: Vec<String> = (0..50_000).map(|i| format!("line number {}", i)).collect();
    let mut buffer = Vec::new();
    encode_capn_lean(&texts, &mut buffer);
    let segments = u32::from_le_bytes([buffer[0], buffer[1], buffer[2], buffer[3]]) + 1;
    assert!(segments > 1);
    let mut expected: u32 = 0;
    for text in &texts {
        expected = expected.wrapping_add(text.bytes().map(|b| b as u32).sum::<u32>());
    }
    assert_eq!(decode_capn_and_get_all_byte_sum(&buffer), Ok(expected));
    let nth: u32 = texts[10_000].bytes().map(|b| b as u32).sum();
    assert_eq!(decode_capn_and_get_nth_byte_sum(&buffer, 10_000), Ok(nth));
    assert_eq!(decode_capn_and_get_nth_byte_sum(&buffer, 50_000), Err(CodecError::IndexOutOfRange));
}

#[test]
fn both_codecs_give_the_same_checksum() {
    let texts = lines(&["the quick", "brown fox", "", "jumps \u{fc}ber", "the lazy dog"]);
    let mut relocatable = Vec::new();
    encode_abom_lean(&texts, &mut relocatable);
    let mut schema = Vec::new();
    encode_capn_lean(&texts, &mut schema);
    let one = decode_abom_and_get_all_byte_sum(&mut relocatable);
    let other = decode_capn_and_get_all_byte_sum(&schema);
    assert!(one.is_ok());
    assert_eq!(one, other);
}

#[test]
fn message_demand_counts_words() {
    // the root pointer, the list with one word more, and two words and the
    // eighth of its bytes for each text
    assert_eq!(message_demand_of(&lines(&[])), Some(2));
    assert_eq!(message_demand_of(&lines(&[""])), Some(2 + 1 + 2));
    assert_eq!(message_demand_of(&lines(&["ab", "c"])), Some(2 + 2 + 2 + 2));
    assert_eq!(message_demand_of(&lines(&["1234567"])), Some(2 + 1 + 2));
    assert_eq!(message_demand_of(&lines(&["12345678"])), Some(2 + 1 + 3));
    let long = "z".repeat(8 * 1000 + 5);
    assert_eq!(
        message_demand_of(&lines(&[&long[..], "", &long[..]])),
        Some(2 + 3 + 1002 + 2 + 1002)
    );
}

#[test]
fn fits_message_on_small_input() {
    assert!(fits_message(&lines(&[])));
    assert!(fits_message(&lines(&["ab", "c"])));
    let texts: Vec<String> = (0..50_000).map(|i| format!("line number {}", i)).collect();
    assert!(fits_message(&texts));
}

#[test]
fn fits_message_counts_bytes_of_a_text() {
    // a text takes at most 2^29 - 2 bytes
    let most = (1usize << 29) - 2;
    let mut long = String::with_capacity(most + 8);
    while long.len() + 8 <= most {
        long.push_str("zzzzzzzz");
    }
    while long.len() < most {
        long.push('z');
    }
    let mut one = vec![long];
    assert_eq!(one[0].len(), most);
    assert!(fits_message(&one));
    assert_eq!(message_demand_of(&one), Some(2 + 1 + most / 8 + 2));
    one[0].push('z');
    assert!(!fits_message(&one));
    assert_eq!(message_demand_of(&one), Some(2 + 1 + (most + 1) / 8 + 2));
}

#[test]
fn decoded_list_resolves_elements_on_demand() {
    let buffer = message(&["ab", "c", ""]);
    let copy = MessageWords::copy_of(&buffer);
    let parsed = parse_message(&copy).unwrap();
    let words = decode_capn_lean(&parsed).unwrap();
    assert_eq!(words.length(), 3);
    assert_eq!(words.word(1), Ok(&b"c"[..]));
    assert_eq!(words.word(0), Ok(&b"ab"[..]));
    assert_eq!(words.word(2), Ok(&b""[..]));
    assert_eq!(words.word(3), Err(CodecError::IndexOutOfRange));
    assert_eq!(sum_one(&words, 0), Ok(195));
    assert_eq!(sum_one(&words, 3), Err(CodecError::IndexOutOfRange));
    assert_eq!(sum_all(&words), Ok(294));
}

#[test]
fn a_malformed_element_is_refused_when_it_is_asked_for() {
    let mut buffer = message(&["ab", "c"]);
    buffer[24] = 0xfd;
    buffer[25] = 0xff;
    let copy = MessageWords::copy_of(&buffer);
    let parsed = parse_message(&copy).unwrap();
    let words = decode_capn_lean(&parsed).unwrap();
    assert_eq!(words.length(), 2);
    assert_eq!(words.word(0), Ok(&b"ab"[..]));
    assert_eq!(words.word(1), Err(CodecError::CorruptEncoding));
    assert_eq!(sum_all(&words), Err(CodecError::CorruptEncoding));
}

#[test]
fn parse_message_refuses_bad_framing() {
    let nothing = MessageWords::copy_of(&[]);
    assert!(matches!(parse_message(&nothing), Err(CodecError::CorruptEncoding)));
    // 600 segments are more than capnp reads
    let mut table: Vec<u8> = Vec::new();
    table.extend_from_slice(&599u32.to_le_bytes());
    table.extend_from_slice(&[0u8; 600 * 4 + 4]);
    let copy = MessageWords::copy_of(&table);
    assert!(matches!(parse_message(&copy), Err(CodecError::CorruptEncoding)));
}

#[test]
fn a_struct_root_is_no_word_list() {
    let no_list: Vec<u8> = vec![
        0, 0, 0, 0, 2, 0, 0, 0, // one segment of two words
        0, 0, 0, 0, 1, 0, 0, 0, // root: a struct of one data word
        0, 0, 0, 0, 0, 0, 0, 0,
    ];
    let copy = MessageWords::copy_of(&no_list);
    let parsed = parse_message(&copy).unwrap();
    assert!(matches!(decode_capn_lean(&parsed), Err(CodecError::CorruptEncoding)));
}

#[test]
fn reading_the_same_element_again_is_counted_again() {
    // each read of a text counts its words against the limit of 10^9 words
    let long = "z".repeat(8 * 1_000_000 - 1);
    let buffer = message(&[&long]);
    let copy = MessageWords::copy_of(&buffer);
    let parsed = parse_message(&copy).unwrap();
    let words = decode_capn_lean(&parsed).unwrap();
    let mut refused = 0;
    for _ in 0..1_001 {
        if words.word(0) == Err(CodecError::CorruptEncoding) {
            refused += 1;
        }
    }
    assert!(refused >= 1);
    assert_eq!(words.length(), 1);
}

#[test]
fn a_text_with_a_zero_byte_is_kept_whole() {
    let buffer = message(&["nul\0byte", "after"]);
    let copy = MessageWords::copy_of(&buffer);
    let parsed = parse_message(&copy).unwrap();
    let words = decode_capn_lean(&parsed).unwrap();
    assert_eq!(words.word(0), Ok(&b"nul\0byte"[..]));
    assert_eq!(words.word(1), Ok(&b"after"[..]));
}

#[test]
fn a_line_longer_than_a_segment_is_kept() {
    let long = "0123456789".repeat(100_000);
    let texts = ["short", &long[..], "", "last"];
    let buffer = message(&texts);
    for (n, text) in texts.iter().enumerate() {
        let expected = text.bytes().fold(0u32, |sum, b| sum.wrapping_add(b as u32));
        assert_eq!(decode_capn_and_get_nth_byte_sum(&buffer, n), Ok(expected));
    }
    let copy = MessageWords::copy_of(&buffer);
    let parsed = parse_message(&copy).unwrap();
    let words = decode_capn_lean(&parsed).unwrap();
    assert_eq!(words.word(1), Ok(long.as_bytes()));
    let mut cut = buffer.clone();
    cut.pop();
    assert_eq!(decode_capn_and_get_all_byte_sum(&cut), Err(CodecError::CorruptEncoding));
}

#[test]
fn an_empty_list_sums_to_zero_without_a_read() {
    let buffer = message(&[]);
    let copy = MessageWords::copy_of(&buffer);
    let parsed = parse_message(&copy).unwrap();
    let words = decode_capn_lean(&parsed).unwrap();
    assert_eq!(words.length(), 0);
    for _ in 0..3 {
        assert_eq!(sum_all(&words), Ok(0));
    }
    assert_eq!(sum_one(&words, 0), Err(CodecError::IndexOutOfRange));
}

#[test]
fn bytes_after_the_message_are_not_read() {
    let whole = message(&["ab", "c"]);
    for extra in [1usize, 3, 7, 8, 13] {
        let mut buffer = whole.clone();
        buffer.extend(std::iter::repeat(0xaa).take(extra));
        assert_eq!(decode_capn_and_get_all_byte_sum(&buffer), Ok(294));
        assert_eq!(decode_capn_and_get_nth_byte_sum(&buffer, 1), Ok(99));
    }
}

#[test]
fn a_table_that_claims_more_than_the_bytes_hold_is_corrupt() {
    // one segment of 900 million words, in 72 bytes
    let mut buffer: Vec<u8> = vec![0, 0, 0, 0];
    buffer.extend_from_slice(&900_000_000u32.to_le_bytes());
    buffer.extend_from_slice(&[0u8; 64]);
    let copy = MessageWords::copy_of(&buffer);
    assert!(matches!(parse_message(&copy), Err(CodecError::CorruptEncoding)));
    assert_eq!(decode_capn_and_get_all_byte_sum(&buffer), Err(CodecError::CorruptEncoding));
    assert_eq!(decode_capn_and_get_nth_byte_sum(&buffer, 0), Err(CodecError::CorruptEncoding));
}
