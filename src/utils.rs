use vstd::prelude::*;
use vstd::utf8::*;

verus! {

/// Number of bytes announced by a UTF-8 leading byte: 1 for ASCII, 2 to 4 for
/// the multi-byte forms, 0 for bytes that can never start a minimal sequence.
pub open spec fn char_width_of(b: u8) -> usize {
    if b <= 0x7F {
        1
    } else if b < 0xC2 {
        0
    } else if b <= 0xDF {
        2
    } else if b <= 0xEF {
        3
    } else if b <= 0xF4 {
        4
    } else {
        0
    }
}

/// The scalar value that `bytes` starts with and its width, or `None` when
/// the bytes do not start with a valid, minimal, in-range UTF-8 sequence.
pub open spec fn decoded_scalar(bytes: Seq<u8>) -> Option<(char, usize)> {
    if valid_first_scalar(bytes) {
        Some((decode_first_scalar(bytes) as char, length_of_first_scalar(bytes) as usize))
    } else {
        None
    }
}

/// Relies on `char::from_u32`: it returns the character exactly when the
/// value is a Unicode scalar value, and `None` otherwise.
pub assume_specification[ char::from_u32 ](i: u32) -> (r: Option<char>)
    ensures
        is_scalar(i) ==> r == Some(i as char),
        !is_scalar(i) ==> r is None,
;

/// Given a first byte, determines how many bytes are in this UTF-8 character.
pub fn utf8_char_width(b: u8) -> (r: usize)
    ensures
        r == char_width_of(b),
{
    if b <= 0x7F {
        1
    } else if b < 0xC2 {
        0
    } else if b <= 0xDF {
        2
    } else if b <= 0xEF {
        3
    } else if b <= 0xF4 {
        4
    } else {
        0
    }
}

/// The range that the first continuation byte must lie in after the leading
/// byte `b0`; narrower than `0x80..=0xBF` where the rest would be overlong, a
/// surrogate, or beyond the largest scalar value.
fn first_continuation_range(b0: u8) -> (r: (u8, u8))
    ensures
        r == (if b0 == 0xE0 {
            (0xA0u8, 0xBFu8)
        } else if b0 == 0xED {
            (0x80u8, 0x9Fu8)
        } else if b0 == 0xF0 {
            (0x90u8, 0xBFu8)
        } else if b0 == 0xF4 {
            (0x80u8, 0x8Fu8)
        } else {
            (0x80u8, 0xBFu8)
        }),
{
    if b0 == 0xE0 {
        (0xA0, 0xBF)
    } else if b0 == 0xED {
        (0x80, 0x9F)
    } else if b0 == 0xF0 {
        (0x90, 0xBF)
    } else if b0 == 0xF4 {
        (0x80, 0x8F)
    } else {
        (0x80, 0xBF)
    }
}

proof fn lemma_two_byte_value(b0: u8, b1: u8)
    requires
        0xC0 <= b0 <= 0xDF,
        0x80 <= b1 <= 0xBF,
    ensures
        ((((b0 & 0x1F) as u32) << 6) | ((b1 & 0x3F) as u32)) <= 0x7FF,
        ((((b0 & 0x1F) as u32) << 6) | ((b1 & 0x3F) as u32)) >= 0x80 <==> b0 >= 0xC2,
{
    assert(((((b0 & 0x1F) as u32) << 6) | ((b1 & 0x3F) as u32)) <= 0x7FF) by (bit_vector)
        requires
            0xC0 <= b0 <= 0xDF,
            0x80 <= b1 <= 0xBF,
    ;
    assert(((((b0 & 0x1F) as u32) << 6) | ((b1 & 0x3F) as u32)) >= 0x80 <==> b0 >= 0xC2)
        by (bit_vector)
        requires
            0xC0 <= b0 <= 0xDF,
            0x80 <= b1 <= 0xBF,
    ;
}

proof fn lemma_three_byte_value(b0: u8, b1: u8, b2: u8)
    requires
        0xE0 <= b0 <= 0xEF,
        0x80 <= b1 <= 0xBF,
        0x80 <= b2 <= 0xBF,
    ensures
        ((((b0 & 0x0F) as u32) << 12) | (((b1 & 0x3F) as u32) << 6) | ((b2 & 0x3F) as u32))
            <= 0xFFFF,
        ((((b0 & 0x0F) as u32) << 12) | (((b1 & 0x3F) as u32) << 6) | ((b2 & 0x3F) as u32))
            >= 0x800 <==> (b0 != 0xE0 || b1 >= 0xA0),
        (0xD800 <= ((((b0 & 0x0F) as u32) << 12) | (((b1 & 0x3F) as u32) << 6) | ((b2
            & 0x3F) as u32)) <= 0xDFFF) <==> (b0 == 0xED && b1 >= 0xA0),
{
    assert(((((b0 & 0x0F) as u32) << 12) | (((b1 & 0x3F) as u32) << 6) | ((b2 & 0x3F) as u32))
        <= 0xFFFF) by (bit_vector)
        requires
            0xE0 <= b0 <= 0xEF,
            0x80 <= b1 <= 0xBF,
            0x80 <= b2 <= 0xBF,
    ;
    assert(((((b0 & 0x0F) as u32) << 12) | (((b1 & 0x3F) as u32) << 6) | ((b2 & 0x3F) as u32))
        >= 0x800 <==> (b0 != 0xE0 || b1 >= 0xA0)) by (bit_vector)
        requires
            0xE0 <= b0 <= 0xEF,
            0x80 <= b1 <= 0xBF,
            0x80 <= b2 <= 0xBF,
    ;
    assert((0xD800 <= ((((b0 & 0x0F) as u32) << 12) | (((b1 & 0x3F) as u32) << 6) | ((b2
        & 0x3F) as u32)) <= 0xDFFF) <==> (b0 == 0xED && b1 >= 0xA0)) by (bit_vector)
        requires
            0xE0 <= b0 <= 0xEF,
            0x80 <= b1 <= 0xBF,
            0x80 <= b2 <= 0xBF,
    ;
}

proof fn lemma_four_byte_value(b0: u8, b1: u8, b2: u8, b3: u8)
    requires
        0xF0 <= b0 <= 0xF7,
        0x80 <= b1 <= 0xBF,
        0x80 <= b2 <= 0xBF,
        0x80 <= b3 <= 0xBF,
    ensures
        (0x10000 <= ((((b0 & 0x07) as u32) << 18) | (((b1 & 0x3F) as u32) << 12) | (((b2
            & 0x3F) as u32) << 6) | ((b3 & 0x3F) as u32)) <= 0x10FFFF) <==> ((b0 == 0xF0 && b1
            >= 0x90) || (0xF1 <= b0 <= 0xF3) || (b0 == 0xF4 && b1 <= 0x8F)),
{
    assert((0x10000 <= ((((b0 & 0x07) as u32) << 18) | (((b1 & 0x3F) as u32) << 12) | (((b2
        & 0x3F) as u32) << 6) | ((b3 & 0x3F) as u32)) <= 0x10FFFF) <==> ((b0 == 0xF0 && b1
        >= 0x90) || (0xF1 <= b0 <= 0xF3) || (b0 == 0xF4 && b1 <= 0x8F))) by (bit_vector)
        requires
            0xF0 <= b0 <= 0xF7,
            0x80 <= b1 <= 0xBF,
            0x80 <= b2 <= 0xBF,
            0x80 <= b3 <= 0xBF,
    ;
}

/// The leading byte of a scalar value's encoding announces the encoding's width.
proof fn lemma_leading_byte_width(v: u32)
    requires
        is_scalar(v),
    ensures
        char_width_of(encode_scalar(v)[0]) == encode_scalar(v).len(),
{
    if has_width_1_encoding(v) {
        assert((v & 0x7F) as u8 <= 0x7F) by (bit_vector)
            requires
                v <= 0x7F,
        ;
    } else if has_width_2_encoding(v) {
        assert(0xC2 <= (0xC0 | ((v >> 6) & 0x1F) as u8) <= 0xDF) by (bit_vector)
            requires
                0x80 <= v <= 0x7FF,
        ;
    } else if has_width_3_encoding(v) {
        assert(0xE0 <= (0xE0 | ((v >> 12) & 0x0F) as u8) <= 0xEF) by (bit_vector)
            requires
                0x800 <= v <= 0xFFFF,
        ;
    } else {
        assert(0xF0 <= (0xF0 | ((v >> 18) & 0x7) as u8) <= 0xF4) by (bit_vector)
            requires
                0x10000 <= v <= 0x10FFFF,
        ;
    }
}

/// Encoding a character in UTF-8 and decoding the result gives the character
/// back together with the width of its encoding, whatever bytes follow it;
/// that width is the one the leading byte announces.
pub proof fn lemma_decode_round_trip(c: char, rest: Seq<u8>)
    ensures
        decoded_scalar(encode_scalar(c as u32) + rest) == Some(
            (c, encode_scalar(c as u32).len() as usize),
        ),
        char_width_of((encode_scalar(c as u32) + rest)[0]) == encode_scalar(c as u32).len(),
{
    let e = encode_scalar(c as u32);
    let bytes = e + rest;
    encode_utf8_first_scalar(seq![c]);
    assert(encode_utf8(seq![c]) =~= e) by {
        assert(seq![c].drop_first() =~= Seq::<char>::empty());
        assert(e + encode_utf8(Seq::<char>::empty()) =~= e);
    }
    char_is_scalar(c);
    char_u32_cast(c, c as u32);
    lemma_leading_byte_width(c as u32);
    assert forall|k: int| 0 <= k < e.len() implies bytes[k] == e[k] by {}
    assert(bytes[0] == e[0]);
}

/// Decodes the scalar value at the start of `buf` and reports its width in
/// bytes; `None` when `buf` is empty or does not start with a valid, minimal,
/// in-range UTF-8 sequence.
pub fn decode_utf8_character(buf: &[u8]) -> (r: Option<(char, usize)>)
    ensures
        r == decoded_scalar(buf@),
{
    let n = buf.len();
    if n == 0 {
        return None;
    }
    let b0 = buf[0];
    let width = utf8_char_width(b0);
    if width == 0 {
        assert(!valid_first_scalar(buf@)) by {
            if 0xC0 <= b0 <= 0xC1 && n >= 2 && is_continuation_byte(buf@[1]) {
                lemma_two_byte_value(b0, buf@[1]);
            }
            if 0xF5 <= b0 <= 0xF7 && n >= 4 && is_continuation_byte(buf@[1])
                && is_continuation_byte(buf@[2]) && is_continuation_byte(buf@[3]) {
                lemma_four_byte_value(b0, buf@[1], buf@[2], buf@[3]);
            }
        }
        return None;
    }
    if width == 1 {
        let code_point = (b0 & 0x7F) as u32;
        assert(code_point == b0 as u32) by (bit_vector)
            requires
                code_point == (b0 & 0x7F) as u32,
                b0 <= 0x7F,
        ;
        return match char::from_u32(code_point) {
            Some(c) => Some((c, 1)),
            None => None,
        };
    }
    if n < width {
        return None;
    }
    let (lo, hi) = first_continuation_range(b0);
    let b1 = buf[1];
    if b1 < lo || b1 > hi {
        assert(!valid_first_scalar(buf@)) by {
            if width == 3 && is_continuation_byte(b1) && is_continuation_byte(buf@[2]) {
                lemma_three_byte_value(b0, b1, buf@[2]);
            }
            if width == 4 && is_continuation_byte(b1) && is_continuation_byte(buf@[2])
                && is_continuation_byte(buf@[3]) {
                lemma_four_byte_value(b0, b1, buf@[2], buf@[3]);
            }
        }
        return None;
    }
    if width == 2 {
        let code_point = (((b0 & 0x1F) as u32) << 6) | ((b1 & 0x3F) as u32);
        proof {
            lemma_two_byte_value(b0, b1);
        }
        return match char::from_u32(code_point) {
            Some(c) => Some((c, 2)),
            None => None,
        };
    }
    let b2 = buf[2];
    if b2 < 0x80 || b2 > 0xBF {
        return None;
    }
    if width == 3 {
        let code_point = (((b0 & 0x0F) as u32) << 12) | (((b1 & 0x3F) as u32) << 6) | ((b2
            & 0x3F) as u32);
        proof {
            lemma_three_byte_value(b0, b1, b2);
        }
        return match char::from_u32(code_point) {
            Some(c) => Some((c, 3)),
            None => None,
        };
    }
    let b3 = buf[3];
    if b3 < 0x80 || b3 > 0xBF {
        return None;
    }
    let code_point = (((b0 & 0x07) as u32) << 18) | (((b1 & 0x3F) as u32) << 12) | (((b2
        & 0x3F) as u32) << 6) | ((b3 & 0x3F) as u32);
    proof {
        lemma_four_byte_value(b0, b1, b2, b3);
    }
    match char::from_u32(code_point) {
        Some(c) => Some((c, 4)),
        None => None,
    }
}

} // verus!
