//! Tolerant UTF-8 decoding: what is no UTF-8 becomes U+FFFD, and decoding goes
//! on behind it.

use vstd::prelude::*;
use vstd::utf8::{
    codepoint_width_1, codepoint_width_2, codepoint_width_3, codepoint_width_4,
    decode_first_scalar, decode_utf8, encode_scalar, encode_utf8, is_continuation_byte, is_scalar,
    length_of_first_scalar, pop_first_scalar, take_first_scalar, valid_first_scalar, valid_utf8,
};

verus! {

/// `char::from_u32`: the character with the scalar value `i`, or `None` where
/// `i` is none (a surrogate, or past U+10FFFF).
pub assume_specification[ char::from_u32 ](i: u32) -> (ch: Option<char>)
    ensures
        ch == (if is_scalar(i) {
            Some(i as char)
        } else {
            None
        }),
;

/// Whether `second` can stand behind the lead byte `lead` of an encoding of
/// three or four bytes. The narrower ranges keep out overlong encodings,
/// surrogates, and values past U+10FFFF.
pub open spec fn second_byte_fits(lead: u8, second: u8) -> bool {
    if lead == 0xe0 {
        0xa0 <= second <= 0xbf
    } else if lead == 0xed {
        0x80 <= second <= 0x9f
    } else if lead == 0xf0 {
        0x90 <= second <= 0xbf
    } else if lead == 0xf4 {
        0x80 <= second <= 0x8f
    } else {
        0xe0 < lead < 0xf4 && is_continuation_byte(second)
    }
}

/// How many bytes at the front of `bytes` make up one malformed sequence, where
/// `bytes` starts with no well-formed one: as many as could still have become a
/// character, and at least one.
pub open spec fn malformed_len(bytes: Seq<u8>) -> int {
    if bytes.len() >= 2 && second_byte_fits(bytes[0], bytes[1]) {
        if bytes.len() >= 3 && bytes[0] >= 0xf0 && is_continuation_byte(bytes[2]) {
            3
        } else {
            2
        }
    } else {
        1
    }
}

/// What `bytes`, which is not empty, starts with, and how many bytes that takes:
/// a character in its well-formed encoding, or U+FFFD for a malformed sequence.
pub open spec fn next_char(bytes: Seq<u8>) -> (char, int)
    recommends
        bytes.len() > 0,
{
    if valid_first_scalar(bytes) {
        (decode_first_scalar(bytes) as char, length_of_first_scalar(bytes))
    } else {
        ('\u{FFFD}', malformed_len(bytes))
    }
}

/// The characters in `bytes`: each well-formed encoding gives its character,
/// each malformed sequence one U+FFFD.
pub open spec fn decode_lossy(bytes: Seq<u8>) -> Seq<char>
    decreases bytes.len(),
{
    if bytes.len() == 0 {
        seq![]
    } else {
        let (ch, n) = next_char(bytes);
        seq![ch] + decode_lossy(bytes.skip(n))
    }
}

proof fn lemma_codepoint_bounds(b1: u8, b2: u8, b3: u8)
    ensures
        codepoint_width_1(b1) <= 0x7f,
        codepoint_width_2(b1, b2) <= 0x7ff,
        codepoint_width_3(b1, b2, b3) <= 0xffff,
{
    assert(codepoint_width_1(b1) <= 0x7f) by (bit_vector);
    assert(codepoint_width_2(b1, b2) <= 0x7ff) by (bit_vector);
    assert(codepoint_width_3(b1, b2, b3) <= 0xffff) by (bit_vector);
}

fn is_continuation(b: u8) -> (r: bool)
    ensures
        r == is_continuation_byte(b),
{
    0x80 <= b && b <= 0xbf
}

fn second_byte_may_follow(lead: u8, second: u8) -> (r: bool)
    ensures
        r == second_byte_fits(lead, second),
{
    match lead {
        0xe0 => 0xa0 <= second && second <= 0xbf,
        0xed => 0x80 <= second && second <= 0x9f,
        0xf0 => 0x90 <= second && second <= 0xbf,
        0xf4 => 0x80 <= second && second <= 0x8f,
        _ => 0xe0 < lead && lead < 0xf4 && is_continuation(second),
    }
}

/// The scalar value that `bytes[i..]` starts with, and how many bytes it takes.
fn well_formed_scalar(bytes: &[u8], i: usize) -> (r: Option<(u32, usize)>)
    requires
        i < bytes@.len(),
    ensures
        r is Some == valid_first_scalar(bytes@.skip(i as int)),
        r matches Some((v, n)) ==> {
            &&& v == decode_first_scalar(bytes@.skip(i as int))
            &&& n == length_of_first_scalar(bytes@.skip(i as int))
            &&& n <= bytes@.len() - i
            &&& is_scalar(v)
        },
{
    let ghost rest = bytes@.skip(i as int);
    let left: usize = bytes.len() - i;
    let b1: u8 = bytes[i];
    assert(rest[0] == b1);
    if b1 <= 0x7f {
        proof {
            lemma_codepoint_bounds(b1, 0, 0);
        }
        return Some(((b1 & 0x7f) as u32, 1));
    }
    if left < 2 || b1 < 0xc0 || b1 > 0xf7 {
        return None;
    }
    let b2: u8 = bytes[i + 1];
    assert(rest[1] == b2);
    if !is_continuation(b2) {
        return None;
    }
    if b1 <= 0xdf {
        let v: u32 = (((b1 & 0x1f) as u32) << 6) | (b2 & 0x3f) as u32;
        proof {
            lemma_codepoint_bounds(b1, b2, 0);
        }
        return if v >= 0x80 {
            Some((v, 2))
        } else {
            None
        };
    }
    if left < 3 {
        return None;
    }
    let b3: u8 = bytes[i + 2];
    assert(rest[2] == b3);
    if !is_continuation(b3) {
        return None;
    }
    if b1 <= 0xef {
        let v: u32 = (((b1 & 0x0f) as u32) << 12) | (((b2 & 0x3f) as u32) << 6) | (b3
            & 0x3f) as u32;
        proof {
            lemma_codepoint_bounds(b1, b2, b3);
        }
        return if v >= 0x800 && !(0xd800 <= v && v <= 0xdfff) {
            Some((v, 3))
        } else {
            None
        };
    }
    if left < 4 {
        return None;
    }
    let b4: u8 = bytes[i + 3];
    assert(rest[3] == b4);
    if !is_continuation(b4) {
        return None;
    }
    let v: u32 = (((b1 & 0x07) as u32) << 18) | (((b2 & 0x3f) as u32) << 12) | (((b3
        & 0x3f) as u32) << 6) | (b4 & 0x3f) as u32;
    if 0x10000 <= v && v <= 0x10ffff {
        Some((v, 4))
    } else {
        None
    }
}

/// Decodes one character at `bytes[i]`, or U+FFFD for one malformed sequence;
/// also gives the number of bytes that it came from.
pub fn decode_next(bytes: &[u8], i: usize) -> (r: (char, usize))
    requires
        i < bytes@.len(),
    ensures
        r.0 == next_char(bytes@.skip(i as int)).0,
        r.1 == next_char(bytes@.skip(i as int)).1,
        0 < r.1 <= bytes@.len() - i,
{
    if let Some((v, n)) = well_formed_scalar(bytes, i) {
        if let Some(ch) = char::from_u32(v) {
            return (ch, n);
        }
    }
    let left: usize = bytes.len() - i;
    let n: usize = if left >= 2 && second_byte_may_follow(bytes[i], bytes[i + 1]) {
        if left >= 3 && bytes[i] >= 0xf0 && is_continuation(bytes[i + 2]) {
            3
        } else {
            2
        }
    } else {
        1
    };
    ('\u{FFFD}', n)
}

/// Text that is well-formed decodes to the characters that it encodes.
pub proof fn law_well_formed_text(bytes: Seq<u8>)
    requires
        valid_utf8(bytes),
    ensures
        decode_lossy(bytes) == decode_utf8(bytes),
    decreases bytes.len(),
{
    if bytes.len() > 0 {
        assert(bytes.skip(length_of_first_scalar(bytes)) =~= pop_first_scalar(bytes));
        law_well_formed_text(pop_first_scalar(bytes));
    }
}

/// Decoding undoes encoding.
pub proof fn law_decode_encode(chars: Seq<char>)
    ensures
        decode_lossy(encode_utf8(chars)) == chars,
{
    vstd::utf8::encode_utf8_valid_utf8(chars);
    vstd::utf8::encode_utf8_decode_utf8(chars);
    law_well_formed_text(encode_utf8(chars));
}

/// Well-formed text can be cut off in front of anything: it decodes the same on
/// its own, and so does what follows it.
pub proof fn law_decode_concat(text: Seq<u8>, rest: Seq<u8>)
    requires
        valid_utf8(text),
    ensures
        decode_lossy(text + rest) == decode_lossy(text) + decode_lossy(rest),
    decreases text.len(),
{
    if text.len() == 0 {
        assert(text + rest =~= rest);
    } else {
        let n = length_of_first_scalar(text);
        let tail = pop_first_scalar(text);
        assert(text.skip(n) =~= tail);
        assert((text + rest).skip(n) =~= tail + rest);
        law_decode_concat(tail, rest);
        assert(decode_lossy(text + rest) =~= decode_lossy(text) + decode_lossy(rest));
    }
}

/// No byte gives more than one character.
pub proof fn law_decode_len(bytes: Seq<u8>)
    ensures
        decode_lossy(bytes).len() <= bytes.len(),
    decreases bytes.len(),
{
    if bytes.len() > 0 {
        law_decode_len(bytes.skip(next_char(bytes).1));
    }
}

/// `s` is the start of the encoding of some character, but not all of it.
pub open spec fn is_truncated(s: Seq<u8>) -> bool {
    exists|ch: char| is_cut_from(s, #[trigger] encode_scalar(ch as u32))
}

/// `s` is `whole` without at least one byte of its end.
pub open spec fn is_cut_from(s: Seq<u8>, whole: Seq<u8>) -> bool {
    s.len() < whole.len() && s == whole.take(s.len() as int)
}

/// The ranges of second bytes are those of well-formed encodings.
proof fn lemma_second_byte(b1: u8, b2: u8, b3: u8, b4: u8)
    requires
        is_continuation_byte(b2),
        is_continuation_byte(b3),
        is_continuation_byte(b4),
    ensures
        0xe0 <= b1 <= 0xef ==> (second_byte_fits(b1, b2) <==> {
            &&& codepoint_width_3(b1, b2, b3) >= 0x800
            &&& !(0xd800 <= codepoint_width_3(b1, b2, b3) <= 0xdfff)
        }),
        0xf0 <= b1 <= 0xf7 ==> (second_byte_fits(b1, b2) <==> 0x10000 <= codepoint_width_4(
            b1,
            b2,
            b3,
            b4,
        ) <= 0x10ffff),
{
    assert(0xe0 <= b1 <= 0xef && is_continuation_byte(b2) && is_continuation_byte(b3) ==> (
    second_byte_fits(b1, b2) <==> {
        &&& codepoint_width_3(b1, b2, b3) >= 0x800
        &&& !(0xd800 <= codepoint_width_3(b1, b2, b3) <= 0xdfff)
    })) by (bit_vector);
    assert(0xf0 <= b1 <= 0xf7 && is_continuation_byte(b2) && is_continuation_byte(b3)
        && is_continuation_byte(b4) ==> (second_byte_fits(b1, b2) <==> 0x10000
        <= codepoint_width_4(b1, b2, b3, b4) <= 0x10ffff)) by (bit_vector);
}

/// A malformed sequence is as long as it can be: it is a truncated encoding (or
/// one byte that starts none), and with one more byte it would be none.
pub proof fn law_malformed_is_maximal(bytes: Seq<u8>, k: int)
    requires
        bytes.len() > 0,
        !valid_first_scalar(bytes),
    ensures
        1 <= malformed_len(bytes) <= bytes.len(),
        malformed_len(bytes) == 1 || is_truncated(bytes.take(malformed_len(bytes))),
        malformed_len(bytes) < k <= bytes.len() ==> !is_truncated(bytes.take(k)),
{
    let n = malformed_len(bytes);
    if n > 1 {
        let b3: u8 = if n == 3 {
            bytes[2]
        } else {
            0x80
        };
        let whole = if bytes[0] < 0xf0 {
            seq![bytes[0], bytes[1], b3]
        } else {
            seq![bytes[0], bytes[1], b3, 0x80u8]
        };
        lemma_second_byte(bytes[0], bytes[1], b3, 0x80);
        assert(valid_first_scalar(whole));
        assert(pop_first_scalar(whole) =~= Seq::<u8>::empty());
        reveal_with_fuel(valid_utf8, 2);
        assert(valid_utf8(whole));
        vstd::utf8::decode_utf8_first_scalar(whole);
        let ch = decode_first_scalar(whole) as char;
        assert(take_first_scalar(whole) =~= whole);
        assert(is_cut_from(bytes.take(n), encode_scalar(ch as u32))) by {
            assert(bytes.take(n) =~= whole.take(n));
        }
    }
    if n < k <= bytes.len() && is_truncated(bytes.take(k)) {
        let s = bytes.take(k);
        let ch = choose|ch: char| is_cut_from(s, #[trigger] encode_scalar(ch as u32));
        let whole = encode_scalar(ch as u32);
        vstd::utf8::encode_utf8_first_scalar(seq![ch]);
        assert(encode_utf8(seq![ch].drop_first()) =~= Seq::<u8>::empty()) by {
            assert(seq![ch].drop_first().len() == 0);
        }
        assert(encode_utf8(seq![ch]) =~= whole);
        assert(valid_first_scalar(whole));
        assert(s[0] == whole[0] && s[1] == whole[1]);
        assert(bytes[0] == whole[0] && bytes[1] == whole[1]);
        if whole.len() == 3 {
            lemma_second_byte(whole[0], whole[1], whole[2], 0x80);
        } else {
            lemma_second_byte(whole[0], whole[1], whole[2], whole[3]);
            assert(k >= 3 ==> bytes[2] == s[2] && s[2] == whole[2]);
        }
    }
}

/// What is no encoding of a character gives one U+FFFD for as many bytes as are the
/// start of one, cut off, or else for a single byte; decoding goes on behind them.
pub proof fn law_malformed_gives_replacement(bytes: Seq<u8>, n: int)
    requires
        bytes.len() > 0,
        !valid_first_scalar(bytes),
        1 <= n <= bytes.len(),
        n == 1 || is_truncated(bytes.take(n)),
        forall|k: int| n < k <= bytes.len() ==> !is_truncated(#[trigger] bytes.take(k)),
    ensures
        decode_lossy(bytes) == seq!['\u{FFFD}'] + decode_lossy(bytes.skip(n)),
        next_char(bytes) == ('\u{FFFD}', n),
{
    let m = malformed_len(bytes);
    law_malformed_is_maximal(bytes, n);
    if n < m {
        assert(is_truncated(bytes.take(m)));
    }
}

/// In front of anything, the encoding of a character gives that character and takes
/// up just its own bytes.
pub proof fn law_character_is_decoded(ch: char, rest: Seq<u8>)
    ensures
        next_char(encode_scalar(ch as u32) + rest) == (ch, encode_scalar(ch as u32).len() as int),
        decode_lossy(encode_scalar(ch as u32) + rest) == seq![ch] + decode_lossy(rest),
        decode_lossy(seq![]) == Seq::<char>::empty(),
{
    let text = seq![ch];
    let code = encode_scalar(ch as u32);
    let bytes = code + rest;
    vstd::utf8::encode_utf8_first_scalar(text);
    vstd::utf8::encode_utf8_valid_utf8(text);
    vstd::utf8::encode_utf8_decode_utf8(text);
    assert(text.drop_first().len() == 0);
    assert(encode_utf8(text.drop_first()) =~= Seq::<u8>::empty());
    assert(encode_utf8(text) =~= code);
    assert(valid_utf8(code));
    vstd::utf8::decode_utf8_first_scalar(code);
    assert(take_first_scalar(code).len() == length_of_first_scalar(code));
    assert(valid_first_scalar(bytes));
    assert(decode_first_scalar(bytes) == decode_first_scalar(code));
    assert(bytes.skip(code.len() as int) =~= rest);
}

} // verus!
