use expr_front::utils::{decode_utf8_character, utf8_char_width};

#[test]
fn utf8_char_width_returns_correct_width() {
    assert_eq!(1, utf8_char_width(0x24));
    assert_eq!(2, utf8_char_width(0xC2));
    assert_eq!(3, utf8_char_width(0xE2));
    assert_eq!(4, utf8_char_width(0xF0));
}

#[test]
fn utf8_char_width_rejects_invalid_leading_bytes() {
    assert_eq!(0, utf8_char_width(0x80));
    assert_eq!(0, utf8_char_width(0xC1));
    assert_eq!(0, utf8_char_width(0xF5));
    assert_eq!(0, utf8_char_width(0xFF));
}

#[test]
fn decode_utf8_character_decodes_character_correctly() {
    assert_eq!(Some(('$', 1)), decode_utf8_character(&[0x24]));
    assert_eq!(Some(('¢', 2)), decode_utf8_character(&[0xC2, 0xA2]));
    assert_eq!(Some(('€', 3)), decode_utf8_character(&[0xE2, 0x82, 0xAC]));
    assert_eq!(Some(('𐍈', 4)), decode_utf8_character(&[0xF0, 0x90, 0x8D, 0x88]));
}

#[test]
fn decoding_an_encoded_character_gives_it_back() {
    for c in ['a', '\u{7F}', '\u{80}', '¶', '\u{7FF}', '\u{800}', '₵', '\u{D7FF}', '\u{E000}', '\u{FFFF}', '\u{10000}', '𐆓', '\u{10FFFF}'] {
        let mut buf = [0u8; 4];
        let encoded = c.encode_utf8(&mut buf).as_bytes().to_vec();
        assert_eq!(Some((c, encoded.len())), decode_utf8_character(&encoded));
        assert_eq!(encoded.len(), utf8_char_width(encoded[0]));
        let mut longer = encoded.clone();
        longer.push(0xFF);
        assert_eq!(Some((c, encoded.len())), decode_utf8_character(&longer));
    }
}

#[test]
fn decoding_rejects_empty_input() {
    assert_eq!(None, decode_utf8_character(&[]));
}

#[test]
fn decoding_rejects_truncated_sequences() {
    assert_eq!(None, decode_utf8_character(&[0xC2]));
    assert_eq!(None, decode_utf8_character(&[0xE2, 0x82]));
    assert_eq!(None, decode_utf8_character(&[0xF0, 0x90, 0x8D]));
}

#[test]
fn decoding_rejects_bad_continuation_bytes() {
    assert_eq!(None, decode_utf8_character(&[0xC2, 0x41]));
    assert_eq!(None, decode_utf8_character(&[0xE2, 0x82, 0xC0]));
    assert_eq!(None, decode_utf8_character(&[0xF1, 0x80, 0x80, 0x7F]));
}

#[test]
fn decoding_rejects_overlong_encodings() {
    assert_eq!(None, decode_utf8_character(&[0xC0, 0x80]));
    assert_eq!(None, decode_utf8_character(&[0xC1, 0xBF]));
    assert_eq!(None, decode_utf8_character(&[0xE0, 0x9F, 0xBF]));
    assert_eq!(None, decode_utf8_character(&[0xF0, 0x8F, 0xBF, 0xBF]));
}

#[test]
fn decoding_rejects_surrogates() {
    assert_eq!(None, decode_utf8_character(&[0xED, 0xA0, 0x80]));
    assert_eq!(None, decode_utf8_character(&[0xED, 0xBF, 0xBF]));
    assert_eq!(Some(('\u{D7FF}', 3)), decode_utf8_character(&[0xED, 0x9F, 0xBF]));
}

#[test]
fn decoding_rejects_out_of_range_leading_bytes() {
    assert_eq!(None, decode_utf8_character(&[0x80, 0x80]));
    assert_eq!(None, decode_utf8_character(&[0xF4, 0x90, 0x80, 0x80]));
    assert_eq!(None, decode_utf8_character(&[0xF5, 0x80, 0x80, 0x80]));
    assert_eq!(None, decode_utf8_character(&[0xFF]));
}
