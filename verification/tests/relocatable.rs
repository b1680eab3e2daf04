use linecodec::checksum::WordList;
use linecodec::error::CodecError;
use linecodec::fields::{get_field, push_field, put_field};
use linecodec::relocatable::{
    decode_abom_and_get_all_byte_sum, decode_abom_and_get_nth_byte_sum, decode_abom_lean,
    encode_abom_lean,
};

fn lines(texts: &[&str]) -> Vec<String> {
    texts.iter().map(|t| t.to_string()).collect()
}

fn encoded(texts: &[&str]) -> Vec<u8> {
    let mut buffer = Vec::new();
    encode_abom_lean(&lines(texts), &mut buffer);
    buffer
}

fn number(value: u64) -> [u8; 8] {
    value.to_le_bytes()
}

#[test]
fn encoding_of_two_words_byte_by_byte() {
    let mut expected: Vec<u8> = Vec::new();
    for value in [24u64, 2, 2, 72, 2, 2, 74, 1, 1] {
        expected.extend_from_slice(&number(value));
    }
    expected.extend_from_slice(b"abc");
    assert_eq!(encoded(&["ab", "c"]), expected);
}

#[test]
fn encoding_of_no_words_is_one_header() {
    let mut expected: Vec<u8> = Vec::new();
    for value in [24u64, 0, 0] {
        expected.extend_from_slice(&number(value));
    }
    assert_eq!(encoded(&[]), expected);
}

#[test]
fn encoding_is_appended() {
    let mut buffer = vec![9u8, 8, 7];
    encode_abom_lean(&lines(&["ab", "c"]), &mut buffer);
    assert_eq!(&buffer[..3], &[9u8, 8, 7]);
    assert_eq!(&buffer[3..], &encoded(&["ab", "c"])[..]);
}

#[test]
fn roundtrip_yields_the_same_words() {
    let texts = ["first line", "", "third", "na\u{ef}ve \u{20ac}", "x"];
    let mut buffer = encoded(&texts);
    let decoded = decode_abom_lean(&mut buffer).unwrap();
    assert_eq!(decoded.len(), texts.len());
    for (i, text) in texts.iter().enumerate() {
        assert_eq!(decoded.get(i), Some(text.as_bytes()));
        assert_eq!(std::str::from_utf8(decoded.get(i).unwrap()), Ok(*text));
    }
    assert_eq!(decoded.get(texts.len()), None);
}

#[test]
fn roundtrip_of_empty_input_has_length_zero() {
    let mut buffer = encoded(&[]);
    let decoded = decode_abom_lean(&mut buffer).unwrap();
    assert_eq!(decoded.len(), 0);
    assert_eq!(decoded.get(0), None);
    let mut buffer = encoded(&[]);
    assert_eq!(decode_abom_and_get_all_byte_sum(&mut buffer), Ok(0));
}

#[test]
fn example_sums_relocatable() {
    let mut buffer = encoded(&["ab", "c"]);
    assert_eq!(decode_abom_and_get_nth_byte_sum(&mut buffer, 0), Ok(195));
    assert_eq!(decode_abom_and_get_nth_byte_sum(&mut buffer, 1), Ok(99));
    assert_eq!(decode_abom_and_get_all_byte_sum(&mut buffer), Ok(294));
}

#[test]
fn nth_sum_is_byte_sum_of_that_line() {
    let texts = ["zero", "one", "two", "three", ""];
    for (n, text) in texts.iter().enumerate() {
        let mut buffer = encoded(&texts);
        let expected: u32 = text.bytes().map(|b| b as u32).sum();
        assert_eq!(decode_abom_and_get_nth_byte_sum(&mut buffer, n), Ok(expected));
    }
}

#[test]
fn index_at_length_is_out_of_range_relocatable() {
    let mut buffer = encoded(&["ab", "c"]);
    assert_eq!(decode_abom_and_get_nth_byte_sum(&mut buffer, 2), Err(CodecError::IndexOutOfRange));
    assert_eq!(
        decode_abom_and_get_nth_byte_sum(&mut buffer, usize::MAX),
        Err(CodecError::IndexOutOfRange)
    );
    let mut empty = encoded(&[]);
    assert_eq!(decode_abom_and_get_nth_byte_sum(&mut empty, 0), Err(CodecError::IndexOutOfRange));
}

#[test]
fn truncated_by_one_byte_is_corrupt_relocatable() {
    for texts in [&["ab", "c"][..], &[][..], &["", ""][..], &["only"][..]] {
        let mut buffer = encoded(texts);
        buffer.pop();
        let kept = buffer.clone();
        assert!(matches!(decode_abom_lean(&mut buffer), Err(CodecError::CorruptEncoding)));
        assert_eq!(
            decode_abom_and_get_nth_byte_sum(&mut buffer, 0),
            Err(CodecError::CorruptEncoding)
        );
        assert_eq!(decode_abom_and_get_all_byte_sum(&mut buffer), Err(CodecError::CorruptEncoding));
        assert_eq!(buffer, kept);
    }
}

#[test]
fn every_truncation_is_corrupt() {
    let whole = encoded(&["ab", "c", "def"]);
    for keep in 0..whole.len() {
        let mut buffer = whole[..keep].to_vec();
        assert_eq!(decode_abom_and_get_all_byte_sum(&mut buffer), Err(CodecError::CorruptEncoding));
    }
}

#[test]
fn leftover_bytes_are_corrupt() {
    let mut buffer = encoded(&["ab", "c"]);
    buffer.push(0);
    let kept = buffer.clone();
    assert_eq!(decode_abom_and_get_all_byte_sum(&mut buffer), Err(CodecError::CorruptEncoding));
    assert_eq!(buffer, kept);
}

#[test]
fn a_count_beyond_the_buffer_is_corrupt() {
    let mut buffer = encoded(&["ab", "c"]);
    put_field(&mut buffer, 16, u64::MAX);
    assert_eq!(decode_abom_and_get_all_byte_sum(&mut buffer), Err(CodecError::CorruptEncoding));
    put_field(&mut buffer, 16, 3);
    assert_eq!(decode_abom_and_get_all_byte_sum(&mut buffer), Err(CodecError::CorruptEncoding));
}

#[test]
fn a_length_beyond_the_buffer_is_corrupt() {
    let mut buffer = encoded(&["ab", "c"]);
    put_field(&mut buffer, 24 + 16, u64::MAX);
    assert_eq!(decode_abom_and_get_all_byte_sum(&mut buffer), Err(CodecError::CorruptEncoding));
    put_field(&mut buffer, 24 + 16, 3);
    assert_eq!(decode_abom_and_get_all_byte_sum(&mut buffer), Err(CodecError::CorruptEncoding));
}

#[test]
fn decode_fixes_up_positions_and_capacities() {
    let canonical = encoded(&["ab", "c"]);
    let mut buffer = canonical.clone();
    // stale positions and capacities, as a memory image would carry them
    put_field(&mut buffer, 0, 0xdead_beef);
    put_field(&mut buffer, 8, 77);
    put_field(&mut buffer, 24, 0x7fff_0000_1234);
    put_field(&mut buffer, 24 + 8, 64);
    put_field(&mut buffer, 48, 1);
    put_field(&mut buffer, 48 + 8, 0);
    {
        let decoded = decode_abom_lean(&mut buffer).unwrap();
        assert_eq!(decoded.len(), 2);
        assert_eq!(decoded.get(0), Some(&b"ab"[..]));
        assert_eq!(decoded.get(1), Some(&b"c"[..]));
    }
    assert_eq!(buffer, canonical);
}

#[test]
fn decoding_twice_gives_the_same() {
    let mut buffer = encoded(&["ab", "c"]);
    assert_eq!(decode_abom_and_get_all_byte_sum(&mut buffer), Ok(294));
    assert_eq!(decode_abom_and_get_all_byte_sum(&mut buffer), Ok(294));
}

#[test]
fn lengths_move_the_word_boundaries() {
    // the same payload "abc" cut as "a" and "bc"
    let mut buffer = encoded(&["ab", "c"]);
    put_field(&mut buffer, 24 + 16, 1);
    put_field(&mut buffer, 48 + 16, 2);
    let decoded = decode_abom_lean(&mut buffer).unwrap();
    assert_eq!(decoded.get(0), Some(&b"a"[..]));
    assert_eq!(decoded.get(1), Some(&b"bc"[..]));
}

#[test]
fn bytes_that_are_no_utf8_are_taken_as_they_are() {
    let mut buffer = encoded(&["ab"]);
    let last = buffer.len() - 1;
    buffer[last] = 0xff;
    assert_eq!(decode_abom_and_get_nth_byte_sum(&mut buffer, 0), Ok(97 + 255));
}

#[test]
fn decoded_words_through_the_narrow_interface() {
    let mut buffer = encoded(&["ab", "c"]);
    let decoded = decode_abom_lean(&mut buffer).unwrap();
    assert_eq!(decoded.length(), 2);
    assert_eq!(decoded.word(0), Ok(&b"ab"[..]));
    assert_eq!(decoded.word(1), Ok(&b"c"[..]));
    assert_eq!(decoded.word(2), Err(CodecError::IndexOutOfRange));
}

#[test]
fn fields_are_little_endian() {
    let mut buffer = Vec::new();
    push_field(&mut buffer, 0x0102_0304_0506_0708);
    assert_eq!(buffer, vec![8u8, 7, 6, 5, 4, 3, 2, 1]);
    assert_eq!(get_field(&buffer, 0), 0x0102_0304_0506_0708);
    push_field(&mut buffer, 1);
    put_field(&mut buffer, 8, 0xff00);
    assert_eq!(buffer, vec![8u8, 7, 6, 5, 4, 3, 2, 1, 0, 0xff, 0, 0, 0, 0, 0, 0]);
    assert_eq!(get_field(&buffer, 8), 0xff00);
    assert_eq!(get_field(&buffer, 4), 0x0000_ff00_0102_0304);
}

#[test]
fn encoding_is_as_long_as_the_memory_image() {
    for texts in [&["ab", "c", "", "a longer line"][..], &[][..], &["x"][..]] {
        assert_eq!(encoded(texts).len(), abomonation::measure(&lines(texts)));
    }
}

#[test]
fn roundtrip_of_many_lines() {
    let texts: Vec<String> = (0..20_000).map(|i| format!("line {} of many", i * 7)).collect();
    let mut buffer = Vec::new();
    encode_abom_lean(&texts, &mut buffer);
    assert_eq!(buffer.len(), abomonation::measure(&texts));
    let decoded = decode_abom_lean(&mut buffer).unwrap();
    assert_eq!(decoded.len(), texts.len());
    for (i, text) in texts.iter().enumerate() {
        assert_eq!(decoded.get(i), Some(text.as_bytes()));
    }
}

#[test]
fn a_line_break_inside_a_word_is_kept() {
    let mut buffer = encoded(&["two\nlines", "tab\there", "nul\0byte"]);
    let decoded = decode_abom_lean(&mut buffer).unwrap();
    assert_eq!(decoded.get(0), Some(&b"two\nlines"[..]));
    assert_eq!(decoded.get(1), Some(&b"tab\there"[..]));
    assert_eq!(decoded.get(2), Some(&b"nul\0byte"[..]));
}
