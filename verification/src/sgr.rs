//! SGR (select graphic rendition): the numeric codes of a sequence such as
//! `ESC [ 1 ; 31 m`, and what they do to a face.

use crate::face::{
    is_known, Color, Face, ATTRIBUTES, BLINK, BOLD, DIM, ITALIC, REVERSE, STRIKE, UNDERLINE,
};
use crate::text::{
    all_digits, chars_of, decimal_value, is_ascii_digit, is_digit, saturate, saturating_number,
};
use vstd::prelude::*;

verus! {

/// How many characters at the front of `s` are digits.
pub open spec fn digit_run(s: Seq<char>) -> nat
    decreases s.len(),
{
    if s.len() > 0 && is_digit(s[0]) {
        1 + digit_run(s.skip(1))
    } else {
        0
    }
}

/// The codes in a parameter string: one for each maximal run of digits, in
/// order, with a value that stops growing at `u32::MAX`. Whatever is not a digit
/// only separates.
pub open spec fn codes_of(s: Seq<char>) -> Seq<u32>
    decreases s.len(),
{
    if s.len() == 0 {
        seq![]
    } else if digit_run(s) == 0 || digit_run(s) > s.len() {
        codes_of(s.skip(1))
    } else {
        let n = digit_run(s) as int;
        seq![saturate(decimal_value(s.take(n)))] + codes_of(s.skip(n))
    }
}

/// A run of digits of length `n` ends there: the digits are `s[..n]`, and what
/// follows is no digit.
proof fn lemma_digit_run(s: Seq<char>, n: int)
    requires
        0 <= n <= s.len(),
        all_digits(s.take(n)),
        n < s.len() ==> !is_digit(s[n]),
    ensures
        digit_run(s) == n,
    decreases n,
{
    if n > 0 {
        assert(s.take(n)[0] == s[0]);
        assert(s.skip(1).take(n - 1) =~= s.take(n).skip(1));
        assert forall|i: int| 0 <= i < n - 1 implies is_digit(
            #[trigger] s.skip(1).take(n - 1)[i],
        ) by {
            assert(s.skip(1).take(n - 1)[i] == s.take(n)[i + 1]);
        }
        lemma_digit_run(s.skip(1), n - 1);
    }
}

/// Extracts the numeric codes of a parameter string.
pub fn parse_codes(params: &str) -> (codes: Vec<u32>)
    ensures
        codes@ == codes_of(params@),
{
    let chars = chars_of(params);
    let mut codes: Vec<u32> = Vec::new();
    let mut i: usize = 0;
    assert(params@.skip(0) =~= params@);
    while i < chars.len()
        invariant
            i <= chars@.len(),
            chars@ == params@,
            codes@ + codes_of(params@.skip(i as int)) =~= codes_of(params@),
        decreases chars@.len() - i,
    {
        let ghost rest = params@.skip(i as int);
        if !is_ascii_digit(chars[i]) {
            assert(rest.skip(1) =~= params@.skip(i + 1));
            i += 1;
            continue;
        }
        let start: usize = i;
        while i < chars.len() && is_ascii_digit(chars[i])
            invariant
                start <= i <= chars@.len(),
                forall|k: int| start <= k < i ==> is_digit(#[trigger] chars@[k]),
            ensures
                i < chars@.len() ==> !is_digit(chars@[i as int]),
            decreases chars@.len() - i,
        {
            i += 1;
        }
        proof {
            let n = i - start;
            assert(rest[0] == chars@[start as int]);
            assert(n > 0);
            assert(rest.take(n) =~= chars@.subrange(start as int, i as int));
            lemma_digit_run(rest, n);
            assert(rest.skip(n) =~= params@.skip(i as int));
        }
        codes.push(saturating_number(&chars, start, i));
    }
    assert(params@.skip(i as int) =~= Seq::<char>::empty());
    codes
}

/// The attribute bit that the SGR code `code` sets, or 0 where it sets none.
pub open spec fn attr_bit(code: u32) -> u16 {
    if code == 1 {
        BOLD
    } else if code == 2 {
        DIM
    } else if code == 3 {
        ITALIC
    } else if code == 4 {
        UNDERLINE
    } else if code == 5 {
        BLINK
    } else if code == 7 {
        REVERSE
    } else if code == 9 {
        STRIKE
    } else {
        0
    }
}

/// The attribute bits that the SGR code `code` clears: the code is twenty more
/// than the one that sets the bit, and `22` ends both bold and dim.
pub open spec fn cleared_bits(code: u32) -> u16 {
    if code == 22 {
        BOLD | DIM
    } else if 21 <= code <= 29 {
        attr_bit((code - 20) as u32)
    } else {
        0
    }
}

fn attr_bit_of(code: u32) -> (bit: u16)
    ensures
        bit == attr_bit(code),
{
    match code {
        1 => BOLD,
        2 => DIM,
        3 => ITALIC,
        4 => UNDERLINE,
        5 => BLINK,
        7 => REVERSE,
        9 => STRIKE,
        _ => 0,
    }
}

/// The intensity of step `k` of the colour cube's axes.
pub open spec fn cube_level(k: int) -> int
    recommends
        0 <= k < 6,
{
    if k == 0 {
        0
    } else {
        55 + 40 * k
    }
}

/// Colour `p` of the 256-colour palette: the sixteen named ones, a cube of six
/// steps of red, green and blue, then a ramp of greys. There is none past 255.
pub open spec fn palette_color(p: u32) -> Color {
    if p < 16 {
        Color::Named(p as u8)
    } else if p < 232 {
        let q = p - 16;
        Color::Rgb(
            cube_level(q / 36) as u8,
            cube_level(q / 6 % 6) as u8,
            cube_level(q % 6) as u8,
        )
    } else if p < 256 {
        let grey = (8 + 10 * (p - 232)) as u8;
        Color::Rgb(grey, grey, grey)
    } else {
        Color::Default
    }
}

/// `v` as a colour component, at most 255.
pub open spec fn component(v: u32) -> u8 {
    if v < 255 {
        v as u8
    } else {
        255
    }
}

/// What follows the code `38` or `48`: the colour it selects and how many codes
/// it takes up. The selector is always taken, its payload only where all of it
/// is there; without a colour to select the result is the default one.
pub open spec fn extended_color(rest: Seq<u32>) -> (Color, int) {
    if rest.len() == 0 {
        (Color::Default, 0)
    } else if rest[0] == 2 && rest.len() >= 4 {
        (Color::Rgb(component(rest[1]), component(rest[2]), component(rest[3])), 4)
    } else if rest[0] == 5 && rest.len() >= 2 {
        (palette_color(rest[1]), 2)
    } else {
        (Color::Default, 1)
    }
}

/// The face after one code that stands alone. Codes without a meaning change
/// nothing.
pub open spec fn after_code(face: Face, code: u32) -> Face {
    if code == 0 {
        Face::plain()
    } else if attr_bit(code) != 0 {
        Face { attrs: face.attrs | attr_bit(code), ..face }
    } else if cleared_bits(code) != 0 {
        Face { attrs: face.attrs & !cleared_bits(code), ..face }
    } else if 30 <= code <= 37 {
        Face { fg: Color::Named((code - 30) as u8), ..face }
    } else if code == 39 {
        Face { fg: Color::Default, ..face }
    } else if 40 <= code <= 47 {
        Face { bg: Color::Named((code - 40) as u8), ..face }
    } else if code == 49 {
        Face { bg: Color::Default, ..face }
    } else if 90 <= code <= 97 {
        Face { fg: Color::Named((code - 82) as u8), ..face }
    } else if 100 <= code <= 107 {
        Face { bg: Color::Named((code - 92) as u8), ..face }
    } else {
        face
    }
}

/// The face after the codes, one after the other from the left; `38` and `48`
/// take their colour from the codes behind them.
pub open spec fn after_codes(face: Face, codes: Seq<u32>) -> Face
    decreases codes.len(),
{
    if codes.len() == 0 {
        face
    } else if codes[0] == 38 || codes[0] == 48 {
        let (color, taken) = extended_color(codes.skip(1));
        let next = if codes[0] == 38 {
            Face { fg: color, ..face }
        } else {
            Face { bg: color, ..face }
        };
        after_codes(next, codes.skip(1 + taken))
    } else {
        after_codes(after_code(face, codes[0]), codes.skip(1))
    }
}

/// The face after an SGR sequence with these codes; one without codes resets.
pub open spec fn after_sgr(face: Face, codes: Seq<u32>) -> Face {
    if codes.len() == 0 {
        Face::plain()
    } else {
        after_codes(face, codes)
    }
}

fn cube_level_of(k: u32) -> (level: u8)
    requires
        k < 6,
    ensures
        level == cube_level(k as int),
{
    if k == 0 {
        0
    } else {
        (55 + 40 * k) as u8
    }
}

fn palette(p: u32) -> (c: Color)
    ensures
        c == palette_color(p),
{
    match p {
        0..=15 => Color::Named(p as u8),
        16..=231 => {
            let q: u32 = p - 16;
            Color::Rgb(
                cube_level_of(q / 36),
                cube_level_of(q / 6 % 6),
                cube_level_of(q % 6),
            )
        },
        232..=255 => {
            let grey: u8 = (8 + (p - 232) * 10) as u8;
            Color::Rgb(grey, grey, grey)
        },
        _ => Color::Default,
    }
}

fn component_of(v: u32) -> (c: u8)
    ensures
        c == component(v),
{
    if v < 255 {
        v as u8
    } else {
        255
    }
}

/// Reads the extended colour that starts at `codes[*i]` and moves `*i` past the
/// codes that it takes up. Where no code is left, none is taken up.
fn parse_extended_color(codes: &[u32], i: &mut usize) -> (color: Color)
    ensures
        *old(i) >= codes@.len() ==> color == Color::Default && *final(i) == *old(i),
        *old(i) <= codes@.len() ==> {
            let (expected, taken) = extended_color(codes@.skip(*old(i) as int));
            color == expected && *final(i) == *old(i) + taken && *final(i) <= codes@.len()
        },
{
    if *i >= codes.len() {
        return Color::Default;
    }
    let left: usize = codes.len() - *i;
    let selector: u32 = codes[*i];
    *i += 1;
    match selector {
        2 => {
            if left < 4 {
                return Color::Default;
            }
            let color = Color::Rgb(
                component_of(codes[*i]),
                component_of(codes[*i + 1]),
                component_of(codes[*i + 2]),
            );
            *i += 3;
            color
        },
        5 => {
            if left < 2 {
                return Color::Default;
            }
            let p: u32 = codes[*i];
            *i += 1;
            palette(p)
        },
        _ => Color::Default,
    }
}

/// An SGR sequence leaves colours that can be written.
pub proof fn lemma_after_codes_wf(face: Face, codes: Seq<u32>)
    requires
        face.wf(),
    ensures
        after_codes(face, codes).wf(),
        after_sgr(face, codes).wf(),
    decreases codes.len(),
{
    if codes.len() > 0 {
        if codes[0] == 38 || codes[0] == 48 {
            let (color, taken) = extended_color(codes.skip(1));
            let next = if codes[0] == 38 {
                Face { fg: color, ..face }
            } else {
                Face { bg: color, ..face }
            };
            lemma_after_codes_wf(next, codes.skip(1 + taken));
        } else {
            lemma_after_codes_wf(after_code(face, codes[0]), codes.skip(1));
        }
    }
}

impl Face {
    /// Applies the codes of an SGR sequence; without codes it is a full reset.
    pub fn apply_sgr(&mut self, codes: &[u32])
        ensures
            *final(self) == after_sgr(*old(self), codes@),
    {
        if codes.len() == 0 {
            *self = Face::default();
            return;
        }
        let mut i: usize = 0;
        assert(codes@.skip(0) =~= codes@);
        while i < codes.len()
            invariant
                i <= codes@.len(),
                after_codes(*self, codes@.skip(i as int)) == after_codes(*old(self), codes@),
            decreases codes@.len() - i,
        {
            let ghost rest = codes@.skip(i as int);
            let code: u32 = codes[i];
            i += 1;
            proof {
                assert(rest[0] == code);
                assert(BOLD | DIM == 0x006) by (bit_vector);
                assert(rest.skip(1) =~= codes@.skip(i as int));
                let taken = extended_color(rest.skip(1)).1;
                assert(rest.skip(1 + taken) =~= codes@.skip(i + taken));
            }
            match code {
                0 => *self = Face::default(),
                1..=5 | 7 | 9 => self.attrs = self.attrs | attr_bit_of(code),
                22 => self.attrs = self.attrs & !(BOLD | DIM),
                21 | 23..=25 | 27 | 29 => self.attrs = self.attrs & !attr_bit_of(code - 20),
                30..=37 => self.fg = Color::Named((code - 30) as u8),
                38 => self.fg = parse_extended_color(codes, &mut i),
                39 => self.fg = Color::Default,
                40..=47 => self.bg = Color::Named((code - 40) as u8),
                48 => self.bg = parse_extended_color(codes, &mut i),
                49 => self.bg = Color::Default,
                90..=97 => self.fg = Color::Named((code - 82) as u8),
                100..=107 => self.bg = Color::Named((code - 92) as u8),
                _ => {},
            }
        }
        assert(codes@.skip(i as int) =~= Seq::<u32>::empty());
    }
}

proof fn lemma_digit_run_bounds(s: Seq<char>)
    ensures
        digit_run(s) <= s.len(),
        all_digits(s.take(digit_run(s) as int)),
        digit_run(s) < s.len() ==> !is_digit(s[digit_run(s) as int]),
    decreases s.len(),
{
    if s.len() > 0 && is_digit(s[0]) {
        let rest = s.skip(1);
        let n = digit_run(s) as int;
        lemma_digit_run_bounds(rest);
        assert forall|i: int| 0 <= i < n implies is_digit(#[trigger] s.take(n)[i]) by {
            if i > 0 {
                assert(rest.take(n - 1)[i - 1] == s[i]);
            }
        }
        if n < s.len() {
            assert(rest[n - 1] == s[n]);
        }
    }
}

/// What separates the codes does not matter: parameter strings that differ only
/// in characters that are no digits have the same codes.
pub proof fn law_separators_are_alike(s: Seq<char>, t: Seq<char>)
    requires
        s.len() == t.len(),
        forall|i: int|
            0 <= i < s.len() ==> (#[trigger] s[i] == t[i] || (!is_digit(s[i]) && !is_digit(t[i]))),
    ensures
        codes_of(s) == codes_of(t),
    decreases s.len(),
{
    if s.len() > 0 {
        let n = digit_run(s) as int;
        lemma_digit_run_bounds(s);
        assert forall|i: int| 0 <= i < n implies is_digit(#[trigger] t.take(n)[i]) by {
            assert(is_digit(s.take(n)[i]));
            assert(s[i] == t[i] || (!is_digit(s[i]) && !is_digit(t[i])));
        }
        assert(n < s.len() ==> !is_digit(t[n])) by {
            if n < s.len() {
                assert(s[n] == t[n] || (!is_digit(s[n]) && !is_digit(t[n])));
            }
        }
        lemma_digit_run(t, n);
        assert(t.take(n) =~= s.take(n)) by {
            assert forall|i: int| 0 <= i < n implies t.take(n)[i] == s.take(n)[i] by {
                assert(is_digit(s.take(n)[i]));
                assert(s[i] == t[i] || (!is_digit(s[i]) && !is_digit(t[i])));
            }
        }
        let k = if n == 0 {
            1
        } else {
            n
        };
        assert forall|i: int| 0 <= i < s.skip(k).len() implies (#[trigger] s.skip(k)[i] == t.skip(
            k,
        )[i] || (!is_digit(s.skip(k)[i]) && !is_digit(t.skip(k)[i]))) by {
            assert(s.skip(k)[i] == s[i + k] && t.skip(k)[i] == t[i + k]);
        }
        law_separators_are_alike(s.skip(k), t.skip(k));
    }
}

/// A character that is no digit separates: the codes before it and the codes
/// behind it do not depend on each other.
pub proof fn law_separator_splits_codes(a: Seq<char>, c: char, b: Seq<char>)
    requires
        !is_digit(c),
    ensures
        codes_of(a + seq![c] + b) == codes_of(a) + codes_of(b),
    decreases a.len(),
{
    let s = a + seq![c] + b;
    if a.len() == 0 {
        assert(s[0] == c);
        assert(s.skip(1) =~= b);
        assert(codes_of(a) + codes_of(b) =~= codes_of(b));
    } else {
        let n = digit_run(a) as int;
        lemma_digit_run_bounds(a);
        assert(s.take(n) =~= a.take(n));
        assert(n < a.len() ==> s[n] == a[n]);
        assert(n == a.len() ==> s[n] == c);
        lemma_digit_run(s, n);
        let k = if n == 0 {
            1
        } else {
            n
        };
        assert(s.skip(k) =~= a.skip(k) + seq![c] + b);
        law_separator_splits_codes(a.skip(k), c, b);
        assert(codes_of(s) =~= codes_of(a) + codes_of(b));
    }
}

/// A reset forgets all that was set before it: without codes nothing else is
/// left, and behind the code `0` only what follows counts.
pub proof fn law_reset(face: Face, codes: Seq<u32>)
    ensures
        after_sgr(face, seq![]) == Face::plain(),
        after_sgr(face, seq![0] + codes) == after_codes(Face::plain(), codes),
{
    let all = seq![0u32] + codes;
    assert(all.skip(1) =~= codes);
}

/// Codes act one after the other: without `38` and `48` among the first ones, the
/// rest starts from the face that those left.
pub proof fn law_codes_in_sequence(face: Face, first: Seq<u32>, rest: Seq<u32>)
    requires
        forall|i: int| 0 <= i < first.len() ==> #[trigger] first[i] != 38 && first[i] != 48,
    ensures
        after_codes(face, first + rest) == after_codes(after_codes(face, first), rest),
    decreases first.len(),
{
    if first.len() == 0 {
        assert(first + rest =~= rest);
    } else {
        assert(first[0] != 38 && first[0] != 48);
        assert((first + rest).skip(1) =~= first.skip(1) + rest);
        assert forall|i: int| 0 <= i < first.skip(1).len() implies #[trigger] first.skip(1)[i] != 38
            && first.skip(1)[i] != 48 by {
            assert(first.skip(1)[i] == first[i + 1]);
        }
        law_codes_in_sequence(after_code(face, first[0]), first.skip(1), rest);
    }
}

/// The code of an attribute sets its bit and the code twenty above clears it
/// again; neither touches the colours, and no other attribute changes, except
/// that the one that ends dim also ends bold.
pub proof fn law_attribute_set_and_clear(face: Face, code: u32)
    requires
        attr_bit(code) != 0,
    ensures
        ({
            let bit = attr_bit(code);
            let set = after_sgr(face, seq![code]);
            &&& set.fg == face.fg && set.bg == face.bg
            &&& set.attrs & bit == bit
            &&& set.attrs & !bit == face.attrs & !bit
        }),
        ({
            let bits = cleared_bits((code + 20) as u32);
            let cleared = after_sgr(face, seq![(code + 20) as u32]);
            &&& bits & attr_bit(code) == attr_bit(code)
            &&& cleared.fg == face.fg && cleared.bg == face.bg
            &&& cleared.attrs & bits == 0
            &&& cleared.attrs & !bits == face.attrs & !bits
        }),
{
    reveal_with_fuel(after_codes, 2);
    let a = face.attrs;
    let b = attr_bit(code);
    let c = cleared_bits((code + 20) as u32);
    assert(BOLD | DIM == 0x006) by (bit_vector);
    assert(0x002u16 & 0x002 == 0x002 && 0x006u16 & 0x004 == 0x004) by (bit_vector);
    assert((a | b) & b == b && (a | b) & !b == a & !b && b & b == b) by (bit_vector);
    assert((a & !c) & c == 0 && (a & !c) & !c == a & !c) by (bit_vector);
    assert(seq![code].skip(1) =~= Seq::<u32>::empty());
    assert(seq![(code + 20) as u32].skip(1) =~= Seq::<u32>::empty());
}

/// SGR sequences lead from faces that can be written to faces that can be
/// written.
pub proof fn law_faces_stay_known(face: Face, codes: Seq<u32>)
    requires
        is_known(face),
    ensures
        is_known(after_codes(face, codes)),
        is_known(after_sgr(face, codes)),
    decreases codes.len(),
{
    lemma_after_codes_wf(face, codes);
    assert(0u16 & !ATTRIBUTES == 0) by (bit_vector);
    if codes.len() > 0 {
        if codes[0] == 38 || codes[0] == 48 {
            let (color, taken) = extended_color(codes.skip(1));
            let next = if codes[0] == 38 {
                Face { fg: color, ..face }
            } else {
                Face { bg: color, ..face }
            };
            law_faces_stay_known(next, codes.skip(1 + taken));
        } else {
            let a = face.attrs;
            let b = attr_bit(codes[0]);
            let c = cleared_bits(codes[0]);
            lemma_attr_bits_known(codes[0]);
            assert(a & !ATTRIBUTES == 0 && b & !ATTRIBUTES == 0 ==> (a | b) & !ATTRIBUTES == 0 && (a
                & !c) & !ATTRIBUTES == 0) by (bit_vector);
            law_faces_stay_known(after_code(face, codes[0]), codes.skip(1));
        }
    }
}

proof fn lemma_attr_bits_known(code: u32)
    ensures
        attr_bit(code) & !ATTRIBUTES == 0,
{
    assert(0x002u16 & !ATTRIBUTES == 0 && 0x004u16 & !ATTRIBUTES == 0 && 0x008u16 & !ATTRIBUTES == 0
        && 0x010u16 & !ATTRIBUTES == 0 && 0x020u16 & !ATTRIBUTES == 0 && 0x080u16 & !ATTRIBUTES == 0
        && 0x200u16 & !ATTRIBUTES == 0 && 0u16 & !ATTRIBUTES == 0) by (bit_vector);
}

/// The face with another foreground (for the code `38`) or background (`48`).
pub open spec fn with_color(face: Face, code: u32, color: Color) -> Face {
    if code == 38 {
        Face { fg: color, ..face }
    } else {
        Face { bg: color, ..face }
    }
}

/// An extended colour takes up its selector and its payload, and what follows is
/// read as codes of its own. Without the whole payload, or behind an unknown
/// selector, the colour is the default one and only the selector is taken up.
pub proof fn law_extended_color(face: Face, code: u32, selector: u32, rest: Seq<u32>)
    requires
        code == 38 || code == 48,
    ensures
        ({
            let after = after_codes(face, seq![code, selector] + rest);
            if selector == 2 && rest.len() >= 3 {
                after == after_codes(
                    with_color(
                        face,
                        code,
                        Color::Rgb(component(rest[0]), component(rest[1]), component(rest[2])),
                    ),
                    rest.skip(3),
                )
            } else if selector == 5 && rest.len() >= 1 {
                after == after_codes(with_color(face, code, palette_color(rest[0])), rest.skip(1))
            } else {
                after == after_codes(with_color(face, code, Color::Default), rest)
            }
        }),
{
    let codes = seq![code, selector] + rest;
    let tail = codes.skip(1);
    assert(tail =~= seq![selector] + rest);
    assert(codes.skip(2) =~= rest);
    if selector == 2 && rest.len() >= 3 {
        assert(codes.skip(5) =~= rest.skip(3));
    } else if selector == 5 && rest.len() >= 1 {
        assert(codes.skip(3) =~= rest.skip(1));
    }
}

/// A digit is read as its value, and a further digit makes ten times as much and
/// the digit, up to the largest `u32`. An empty parameter string has no codes.
pub proof fn law_codes_are_decimal(digits: Seq<char>, c: char)
    requires
        forall|i: int| 0 <= i < digits.len() ==> '0' <= #[trigger] digits[i] <= '9',
        '0' <= c <= '9',
    ensures
        codes_of(seq![]) == Seq::<u32>::empty(),
        codes_of(seq![c]) == seq![(c as int - 48) as u32],
        digits.len() > 0 ==> {
            let more = 10 * codes_of(digits)[0] + (c as int - 48);
            &&& codes_of(digits).len() == 1
            &&& codes_of(digits.push(c)) == seq![
                (if more < 4294967295 {
                    more
                } else {
                    4294967295
                }) as u32,
            ]
        },
{
    reveal_with_fuel(decimal_value, 2);
    let one = seq![c];
    assert forall|s: Seq<char>| s.len() > 0 && #[trigger] all_digits(s) implies codes_of(s) == seq![
        saturate(decimal_value(s)),
    ] by {
        let n = s.len() as int;
        assert(s.take(n) =~= s);
        lemma_digit_run(s, n);
        assert(s.skip(n) =~= Seq::<char>::empty());
        assert(codes_of(Seq::<char>::empty()) =~= Seq::<u32>::empty());
        assert(codes_of(s) =~= seq![saturate(decimal_value(s))]);
    }
    assert(one.drop_last() =~= Seq::<char>::empty());
    assert(all_digits(one));
    assert(all_digits(digits));
    let longer = digits.push(c);
    assert(longer.drop_last() =~= digits);
    assert forall|i: int| 0 <= i < longer.len() implies is_digit(#[trigger] longer[i]) by {
        if i < digits.len() {
            assert(is_digit(digits[i]));
        }
    }
    assert(all_digits(longer));
}

/// Everything but `0` to `9` separates codes.
pub proof fn law_only_digits_make_codes(a: Seq<char>, c: char, b: Seq<char>)
    requires
        !('0' <= c <= '9'),
    ensures
        codes_of(a + seq![c] + b) == codes_of(a) + codes_of(b),
{
    law_separator_splits_codes(a, c, b);
}

/// A foreground code changes the foreground and nothing else: `30` to `37` and
/// `90` to `97` select the sixteen colours in order, `39` the default.
pub proof fn law_foreground_codes(face: Face, code: u32)
    requires
        30 <= code <= 37 || code == 39 || 90 <= code <= 97,
    ensures
        ({
            let after = after_sgr(face, seq![code]);
            &&& after.bg == face.bg
            &&& after.attrs == face.attrs
            &&& 30 <= code <= 37 ==> after.fg == Color::Named((code - 30) as u8)
            &&& 90 <= code <= 97 ==> after.fg == Color::Named((code - 90 + 8) as u8)
            &&& code == 39 ==> after.fg == Color::Default
        }),
{
    reveal_with_fuel(after_codes, 2);
    lemma_bits_of_codes();
}

/// A background code changes the background and nothing else: `40` to `47` and
/// `100` to `107` select the sixteen colours in order, `49` the default.
pub proof fn law_background_codes(face: Face, code: u32)
    requires
        40 <= code <= 47 || code == 49 || 100 <= code <= 107,
    ensures
        ({
            let after = after_sgr(face, seq![code]);
            &&& after.fg == face.fg
            &&& after.attrs == face.attrs
            &&& 40 <= code <= 47 ==> after.bg == Color::Named((code - 40) as u8)
            &&& 100 <= code <= 107 ==> after.bg == Color::Named((code - 100 + 8) as u8)
            &&& code == 49 ==> after.bg == Color::Default
        }),
{
    reveal_with_fuel(after_codes, 2);
    lemma_bits_of_codes();
}

/// Bold and dim together, as the bits of one number.
proof fn lemma_bits_of_codes()
    ensures
        BOLD | DIM == 0x006,
{
    assert(BOLD | DIM == 0x006) by (bit_vector);
}

/// An attribute code changes the attributes and nothing else. `1`, `2`, `3`, `4`,
/// `5`, `7` and `9` add bold, dim, italic, underline, blink, reverse and strike,
/// each of which is the bit with the number of its code; `21`, `23`, `24`, `25`,
/// `27` and `29` take the same ones away again, and `22` both bold and dim.
pub proof fn law_attribute_codes(face: Face, code: u32)
    requires
        1 <= code <= 5 || code == 7 || code == 9 || 21 <= code <= 25 || code == 27 || code == 29,
    ensures
        ({
            let after = after_sgr(face, seq![code]);
            &&& after.fg == face.fg
            &&& after.bg == face.bg
            &&& code == 1 ==> after.attrs == face.attrs | 0x002
            &&& code == 2 ==> after.attrs == face.attrs | 0x004
            &&& code == 3 ==> after.attrs == face.attrs | 0x008
            &&& code == 4 ==> after.attrs == face.attrs | 0x010
            &&& code == 5 ==> after.attrs == face.attrs | 0x020
            &&& code == 7 ==> after.attrs == face.attrs | 0x080
            &&& code == 9 ==> after.attrs == face.attrs | 0x200
            &&& code == 21 ==> after.attrs == face.attrs & !0x002u16
            &&& code == 22 ==> after.attrs == face.attrs & !0x006u16
            &&& code == 23 ==> after.attrs == face.attrs & !0x008u16
            &&& code == 24 ==> after.attrs == face.attrs & !0x010u16
            &&& code == 25 ==> after.attrs == face.attrs & !0x020u16
            &&& code == 27 ==> after.attrs == face.attrs & !0x080u16
            &&& code == 29 ==> after.attrs == face.attrs & !0x200u16
        }),
{
    reveal_with_fuel(after_codes, 2);
    lemma_bits_of_codes();
}

/// `0`, and no code at all, leave the default colours and no attributes. A code
/// that is neither this nor an attribute or a colour changes nothing.
pub proof fn law_reset_and_other_codes(face: Face, code: u32)
    ensures
        after_sgr(face, seq![]) == (Face { fg: Color::Default, bg: Color::Default, attrs: 0 }),
        after_sgr(face, seq![0u32]) == (Face { fg: Color::Default, bg: Color::Default, attrs: 0 }),
        code == 6 || code == 8 || 10 <= code <= 20 || code == 26 || code == 28 || 50 <= code <= 89
            || code == 98 || code == 99 || code >= 108 ==> after_sgr(face, seq![code]) == face,
{
    reveal_with_fuel(after_codes, 2);
    lemma_bits_of_codes();
}

/// A list of codes does what its parts do one after the other, as long as no `38`
/// or `48` in the first part can reach into the second.
pub proof fn law_sgr_in_sequence(face: Face, first: Seq<u32>, rest: Seq<u32>)
    requires
        first.len() > 0,
        rest.len() > 0,
        forall|i: int| 0 <= i < first.len() ==> #[trigger] first[i] != 38 && first[i] != 48,
    ensures
        after_sgr(face, first + rest) == after_sgr(after_sgr(face, first), rest),
{
    law_codes_in_sequence(face, first, rest);
}

/// A colour with its whole payload, and with codes behind it.
proof fn lemma_color_and_rest(
    face: Face,
    code: u32,
    selector: u32,
    payload: Seq<u32>,
    rest: Seq<u32>,
)
    requires
        code == 38 || code == 48,
        (selector == 2 && payload.len() == 3) || (selector == 5 && payload.len() == 1),
    ensures
        ({
            let color = extended_color(seq![selector] + payload).0;
            let whole = seq![code, selector] + payload;
            &&& after_sgr(face, whole) == with_color(face, code, color)
            &&& after_sgr(face, whole + rest) == after_codes(with_color(face, code, color), rest)
        }),
{
    let n = payload.len() as int;
    law_extended_color(face, code, selector, payload);
    law_extended_color(face, code, selector, payload + rest);
    assert(seq![code, selector] + (payload + rest) =~= seq![code, selector] + payload + rest);
    assert((payload + rest).skip(n) =~= rest);
    assert(payload.skip(n) =~= Seq::<u32>::empty());
}

/// `38;2` and `48;2` take three components, each cut off at 255, and set that
/// foreground or background and nothing else. What follows acts on the result.
pub proof fn law_true_color(face: Face, r: u32, g: u32, b: u32, rest: Seq<u32>)
    ensures
        ({
            let cut = |v: u32| if v <= 255 { v as u8 } else { 255u8 };
            let color = Color::Rgb(cut(r), cut(g), cut(b));
            let fg = after_sgr(face, seq![38u32, 2, r, g, b]);
            let bg = after_sgr(face, seq![48u32, 2, r, g, b]);
            &&& fg.fg == color && fg.bg == face.bg && fg.attrs == face.attrs
            &&& bg.bg == color && bg.fg == face.fg && bg.attrs == face.attrs
            &&& rest.len() > 0 ==> {
                &&& after_sgr(face, seq![38u32, 2, r, g, b] + rest) == after_sgr(fg, rest)
                &&& after_sgr(face, seq![48u32, 2, r, g, b] + rest) == after_sgr(bg, rest)
            }
        }),
{
    let payload = seq![r, g, b];
    assert(seq![38u32, 2] + payload =~= seq![38u32, 2, r, g, b]);
    assert(seq![48u32, 2] + payload =~= seq![48u32, 2, r, g, b]);
    lemma_color_and_rest(face, 38, 2, payload, rest);
    lemma_color_and_rest(face, 48, 2, payload, rest);
}

/// `38;5` and `48;5` take the number of a palette colour, and set that foreground
/// or background and nothing else. What follows acts on the result.
pub proof fn law_palette_color(face: Face, p: u32, rest: Seq<u32>)
    ensures
        ({
            let fg = after_sgr(face, seq![38u32, 5, p]);
            let bg = after_sgr(face, seq![48u32, 5, p]);
            &&& fg.bg == face.bg && fg.attrs == face.attrs
            &&& bg.fg == face.fg && bg.attrs == face.attrs
            &&& fg.fg == bg.bg
            &&& p < 16 ==> fg.fg == Color::Named(p as u8)
            &&& p > 255 ==> fg.fg == Color::Default
            &&& rest.len() > 0 ==> {
                &&& after_sgr(face, seq![38u32, 5, p] + rest) == after_sgr(fg, rest)
                &&& after_sgr(face, seq![48u32, 5, p] + rest) == after_sgr(bg, rest)
            }
        }),
{
    let payload = seq![p];
    assert(seq![38u32, 5] + payload =~= seq![38u32, 5, p]);
    assert(seq![48u32, 5] + payload =~= seq![48u32, 5, p]);
    lemma_color_and_rest(face, 38, 5, payload, rest);
    lemma_color_and_rest(face, 48, 5, payload, rest);
}

/// From 16 on the palette counts through a cube of six steps of red, green and
/// blue, with blue the fastest; from 232 on it climbs through 24 greys.
pub proof fn law_palette_cube_and_greys(face: Face, r: int, g: int, b: int, k: int)
    requires
        0 <= r < 6,
        0 <= g < 6,
        0 <= b < 6,
        0 <= k < 24,
    ensures
        ({
            let steps = seq![0u8, 95, 135, 175, 215, 255];
            let p = (16 + 36 * r + 6 * g + b) as u32;
            after_sgr(face, seq![38u32, 5, p]).fg == Color::Rgb(steps[r], steps[g], steps[b])
        }),
        ({
            let grey = (8 + 10 * k) as u8;
            after_sgr(face, seq![38u32, 5, (232 + k) as u32]).fg == Color::Rgb(grey, grey, grey)
        }),
{
    reveal_with_fuel(after_codes, 2);
    let p = (16 + 36 * r + 6 * g + b) as u32;
    let q = p - 16;
    assert(q / 36 == r);
    assert(q / 6 % 6 == g);
    assert(q % 6 == b);
    law_extended_color(face, 38, 5, seq![p]);
    assert(seq![38u32, 5u32] + seq![p] =~= seq![38u32, 5, p]);
    assert(seq![p].skip(1) =~= Seq::<u32>::empty());
    let grey = (232 + k) as u32;
    law_extended_color(face, 38, 5, seq![grey]);
    assert(seq![38u32, 5u32] + seq![grey] =~= seq![38u32, 5, grey]);
    assert(seq![grey].skip(1) =~= Seq::<u32>::empty());
}

/// Where no colour is there to be read, `38` and `48` set the default one and
/// nothing else: at the end of the list, behind a selector other than `2` and `5`,
/// and behind one that is followed by too little. The selector is used up, and the
/// codes behind it act as codes of their own.
pub proof fn law_missing_color(face: Face, selector: u32, rest: Seq<u32>)
    requires
        selector == 2 ==> rest.len() < 3,
        selector == 5 ==> rest.len() < 1,
    ensures
        ({
            let fg = Face { fg: Color::Default, bg: face.bg, attrs: face.attrs };
            let bg = Face { fg: face.fg, bg: Color::Default, attrs: face.attrs };
            &&& after_sgr(face, seq![38u32]) == fg
            &&& after_sgr(face, seq![48u32]) == bg
            &&& rest.len() == 0 ==> after_sgr(face, seq![38u32, selector]) == fg && after_sgr(
                face,
                seq![48u32, selector],
            ) == bg
            &&& rest.len() > 0 ==> after_sgr(face, seq![38u32, selector] + rest) == after_sgr(
                fg,
                rest,
            ) && after_sgr(face, seq![48u32, selector] + rest) == after_sgr(bg, rest)
        }),
{
    reveal_with_fuel(after_codes, 2);
    assert(seq![38u32].skip(1) =~= Seq::<u32>::empty());
    assert(seq![48u32].skip(1) =~= Seq::<u32>::empty());
    law_extended_color(face, 38, selector, rest);
    law_extended_color(face, 48, selector, rest);
    if rest.len() == 0 {
        assert(seq![38u32, selector] + rest =~= seq![38u32, selector]);
        assert(seq![48u32, selector] + rest =~= seq![48u32, selector]);
    }
}

} // verus!
