//! What the filter does with each kind of character and sequence, spelled out.

use crate::coord::{
    cursor, fits, is_one_line, law_cursor_concat, law_cursor_in_line, law_what_fits, Pos,
};
use crate::face::{Color, Face};
use crate::laws::{
    held_text, in_face, law_charset_sequence, law_csi_sequence, law_delay_is_invisible,
    law_lone_escape, law_osc_sequence, law_output_is_stripped, law_text_is_printed, lemma_csi_params,
    lemma_osc_body, lemma_past_all_concat, past_all,
};
use crate::model::State;
use crate::runs::{
    law_plain_text_has_no_ranges, law_range_of_one_face, law_ranges_split_at_face, law_text_of_cells,
    Cell,
};
use crate::sgr::{after_sgr, codes_of};
use crate::text::signed_decimal;
use vstd::prelude::*;
use vstd::utf8::encode_utf8;

verus! {

/// A character that the filter prints wherever it is read outside of a sequence: no
/// `ESC`, no shift out or in, no carriage return.
pub open spec fn is_printed(ch: char) -> bool {
    ch != '\u{1B}' && ch != '\u{E}' && ch != '\u{F}' && ch != '\r'
}

/// Text without controls that the filter would act on.
pub open spec fn is_plain(text: Seq<char>) -> bool {
    forall|i: int| 0 <= i < text.len() ==> is_printed(#[trigger] text[i]) && text[i] != '\u{8}'
}

/// Nothing that the filter acts on by itself is left in what comes out.
pub proof fn law_no_control_comes_out(start: Pos, chars: Seq<char>, i: int)
    requires
        0 <= i < State::initial(start).feed_all(chars).flush().text().len(),
    ensures
        is_printed(State::initial(start).feed_all(chars).flush().text()[i]),
{
    law_output_is_stripped(start, chars);
}

/// `shown` is how `ch` looks in the line-drawing character set: a box-drawing
/// character for eleven letters, and everything else as it is.
pub open spec fn is_drawn_as(ch: char, shown: char) -> bool {
    &&& ch == 'j' ==> shown == '\u{2518}'
    &&& ch == 'k' ==> shown == '\u{2510}'
    &&& ch == 'l' ==> shown == '\u{250C}'
    &&& ch == 'm' ==> shown == '\u{2514}'
    &&& ch == 'n' ==> shown == '\u{253C}'
    &&& ch == 'q' ==> shown == '\u{2500}'
    &&& ch == 't' ==> shown == '\u{251C}'
    &&& ch == 'u' ==> shown == '\u{2524}'
    &&& ch == 'v' ==> shown == '\u{2534}'
    &&& ch == 'w' ==> shown == '\u{252C}'
    &&& ch == 'x' ==> shown == '\u{2502}'
    &&& !"jklmnqtuvwx"@.contains(ch) ==> shown == ch
}

/// Outside of sequences, a character is printed in the face of the moment: as
/// itself, or, with line drawing selected, as the box-drawing character that its
/// letter stands for. Eleven letters stand for one, everything else for itself.
pub proof fn law_printed_character(s: State, ch: char)
    requires
        s.escape is Ground,
        is_printed(ch),
    ensures
        ({
            let t = s.past_overstrike(ch);
            let shown = t.printed.last().ch;
            &&& t == (State { printed: s.printed.push(Cell { ch: shown, face: s.face }), ..s })
            &&& !s.line_drawing ==> shown == ch
            &&& s.line_drawing ==> is_drawn_as(ch, shown)
        }),
{
    reveal_strlit("jklmnqtuvwx");
    let letters = "jklmnqtuvwx"@;
    assert(letters[0] == 'j' && letters[1] == 'k' && letters[2] == 'l' && letters[3] == 'm'
        && letters[4] == 'n' && letters[5] == 'q' && letters[6] == 't' && letters[7] == 'u'
        && letters[8] == 'v' && letters[9] == 'w' && letters[10] == 'x');
    if letters.contains(ch) {
        let i = letters.index_of(ch);
        assert(letters[i] == ch);
    }
}

/// Text in line drawing comes out with as many characters as it has: those outside
/// of `j k l m n q t u v w x`, newlines among them, as they are.
pub proof fn law_line_drawing_text(s: State, chars: Seq<char>)
    requires
        s.escape is Ground,
        s.line_drawing,
        forall|i: int| 0 <= i < chars.len() ==> is_printed(#[trigger] chars[i]),
    ensures
        ({
            let t = past_all(s, chars);
            let n = s.printed.len() as int;
            &&& t == (State { printed: t.printed, ..s })
            &&& t.printed.len() == n + chars.len()
            &&& t.printed.take(n) == s.printed
            &&& forall|i: int|
                0 <= i < chars.len() ==> is_drawn_as(#[trigger] chars[i], t.printed[n + i].ch)
                    && t.printed[n + i].face == s.face
        }),
    decreases chars.len(),
{
    let n = s.printed.len() as int;
    if chars.len() == 0 {
        assert(s.printed.take(n) =~= s.printed);
    } else {
        let rest = chars.skip(1);
        let next = s.past_overstrike(chars[0]);
        law_printed_character(s, chars[0]);
        assert forall|i: int| 0 <= i < rest.len() implies is_printed(#[trigger] rest[i]) by {
            assert(rest[i] == chars[i + 1]);
        }
        law_line_drawing_text(next, rest);
        let t = past_all(s, chars);
        assert(t == past_all(next, rest));
        assert(t.printed.take(n) =~= s.printed) by {
            assert(t.printed.take(n) =~= t.printed.take(n + 1).take(n));
        }
        assert(t.printed[n] == t.printed.take(n + 1)[n]);
        assert forall|i: int| 0 <= i < chars.len() implies is_drawn_as(
            #[trigger] chars[i],
            t.printed[n + i].ch,
        ) && t.printed[n + i].face == s.face by {
            if i > 0 {
                assert(rest[i - 1] == chars[i]);
                assert(t.printed[n + 1 + (i - 1)] == t.printed[n + i]);
            }
        }
    }
}

/// Carriage returns go away; shift out selects line drawing and shift in ends it.
/// None of them prints anything, or changes anything else.
pub proof fn law_controls(s: State)
    requires
        s.escape is Ground,
    ensures
        s.past_overstrike('\r') == s,
        s.past_overstrike('\u{E}') == (State { line_drawing: true, ..s }),
        s.past_overstrike('\u{F}') == (State { line_drawing: false, ..s }),
{
}

/// The parameters of a CSI sequence: digits, `;` and `:`, and a `?` in front.
pub open spec fn are_parameters(params: Seq<char>) -> bool {
    forall|i: int|
        0 <= i < params.len() ==> {
            ||| '0' <= #[trigger] params[i] <= '9'
            ||| params[i] == ';'
            ||| params[i] == ':'
            ||| i == 0 && params[i] == '?'
        }
}

/// `ESC [`, parameters, and any character that cannot go on with them print nothing,
/// and what follows is read as outside of a sequence. With `m` at the end the codes
/// act on the face, unless there are 1018 parameter characters or more; nothing else
/// changes, with `m` or with another end.
pub proof fn law_csi(s: State, params: Seq<char>, end: char)
    requires
        s.escape is Ground,
        are_parameters(params),
        !('0' <= end <= '9') && end != ';' && end != ':',
        end == '?' ==> params.len() > 0,
    ensures
        past_all(s, seq!['\u{1B}', '['] + params + seq![end]) == (State {
            face: if end == 'm' && params.len() < 1018 {
                after_sgr(s.face, codes_of(params))
            } else {
                s.face
            },
            ..s
        }),
{
    law_csi_sequence(s, params, end);
}

/// A CSI sequence that does not end prints nothing, however long its parameters are.
pub proof fn law_open_csi(s: State, params: Seq<char>)
    requires
        s.escape is Ground,
        are_parameters(params),
    ensures
        ({
            let t = past_all(s, seq!['\u{1B}', '['] + params);
            t == (State { escape: t.escape, ..s })
        }),
{
    lemma_csi_params(s, params);
}

/// Text around a CSI sequence comes out as if the sequence were not there; what
/// stands before it has the plain face, and what follows the face that the codes
/// make of it, where they count.
pub proof fn law_csi_in_text(
    start: Pos,
    before: Seq<char>,
    params: Seq<char>,
    end: char,
    behind: Seq<char>,
)
    requires
        is_plain(before),
        are_parameters(params),
        !('0' <= end <= '9') && end != ';' && end != ':' && end != '\u{8}',
        end == '?' ==> params.len() > 0,
        is_plain(behind),
    ensures
        ({
            let input = before + (seq!['\u{1B}', '['] + params + seq![end]) + behind;
            let t = State::initial(start).feed_all(input).flush();
            let plain = Face { fg: Color::Default, bg: Color::Default, attrs: 0 };
            let face = if end == 'm' && params.len() < 1018 {
                after_sgr(plain, codes_of(params))
            } else {
                plain
            };
            &&& t.text() == before + behind
            &&& t.printed == in_face(before, plain) + in_face(behind, face)
            &&& t.start == start
        }),
{
    let s = State::initial(start);
    let csi = seq!['\u{1B}', '['] + params + seq![end];
    let input = before + csi + behind;
    let n = before.len() as int;
    assert forall|i: int| 0 <= i < input.len() implies #[trigger] input[i] != '\u{8}' by {
        if i < n {
            assert(input[i] == before[i]);
        } else if i < n + csi.len() {
            assert(input[i] == csi[i - n]);
            if 2 <= i - n < 2 + params.len() {
                assert(csi[i - n] == params[i - n - 2]);
            }
        } else {
            assert(input[i] == behind[i - n - csi.len()]);
        }
    }
    law_delay_is_invisible(s, input);
    assert(held_text(s) + input =~= input);
    lemma_past_all_concat(s, before + csi, behind);
    lemma_past_all_concat(s, before, csi);
    law_text_is_printed(s, before);
    let a = past_all(s, before);
    law_csi(a, params, end);
    let b = past_all(a, csi);
    law_text_is_printed(b, behind);
    let t = s.feed_all(input).flush();
    assert(t.printed =~= in_face(before, s.face) + in_face(behind, b.face));
    assert(t.text() =~= before + behind);
}

/// What can stand in an OSC sequence without ending it: no `BEL`, and no backslash
/// right behind an `ESC`.
pub open spec fn is_title(body: Seq<char>) -> bool {
    forall|i: int|
        0 <= i < body.len() ==> #[trigger] body[i] != '\u{7}' && (i > 0 && body[i - 1] == '\u{1B}'
            ==> body[i] != '\\')
}

/// `ESC ]` and all that follows it go away, up to and with the first `BEL`, or the
/// first backslash behind an `ESC`; nothing changes.
pub proof fn law_osc(s: State, body: Seq<char>)
    requires
        s.escape is Ground,
        is_title(body),
    ensures
        past_all(s, seq!['\u{1B}', ']'] + body + seq!['\u{7}']) == s,
        past_all(s, seq!['\u{1B}', ']'] + body + seq!['\u{1B}', '\\']) == s,
        ({
            let t = past_all(s, seq!['\u{1B}', ']'] + body);
            t == (State { escape: t.escape, ..s })
        }),
{
    law_osc_sequence(s, body);
    lemma_osc_body(s, body);
}

/// `ESC (` takes one more character: `0` selects line drawing, `B` ends it. Nothing
/// is printed and nothing else changes, whichever character it is.
pub proof fn law_charset(s: State, ch: char)
    requires
        s.escape is Ground,
    ensures
        ({
            let t = past_all(s, seq!['\u{1B}', '(', ch]);
            &&& t == (State { line_drawing: t.line_drawing, ..s })
            &&& ch == '0' ==> t.line_drawing
            &&& ch == 'B' ==> !t.line_drawing
            &&& ch != '0' && ch != 'B' ==> t.line_drawing == s.line_drawing
        }),
{
    law_charset_sequence(s, ch);
}

/// Behind an `ESC`, a character other than `[`, `]` and `(` is read as if the `ESC`
/// were not there, also where it is another `ESC`.
pub proof fn law_other_escape(s: State, ch: char)
    requires
        s.escape is Ground,
        ch != '[' && ch != ']' && ch != '(',
    ensures
        past_all(s, seq!['\u{1B}', ch]) == past_all(s, seq![ch]),
{
    law_lone_escape(s, ch);
    reveal_with_fuel(past_all, 2);
    assert(seq![ch].skip(1) =~= Seq::<char>::empty());
}

/// What a state gives out: the characters of its cells, and one range-spec for text
/// of one face, from its first byte to its last, unless nothing was said about that
/// face. Where the face changes, the ranges of the parts follow each other.
pub proof fn law_output(s: State, face: Face, a: Seq<Cell>, b: Seq<Cell>, i: int)
    requires
        s.printed.len() > 0,
    ensures
        s.text().len() == s.printed.len(),
        0 <= i < s.printed.len() ==> s.text()[i] == s.printed[i].ch,
        s.fits() <==> fits(s.start, s.text()),
        (forall|k: int| 0 <= k < s.printed.len() ==> (#[trigger] s.printed[k]).face == face) ==> {
            let last = cursor(s.start, s.text().drop_last());
            let bytes = encode_utf8(seq![s.text().last()]).len();
            if face.fg == Color::Default && face.bg == Color::Default && face.attrs == 0 {
                s.ranges() == Seq::<char>::empty()
            } else {
                s.ranges() == seq![' '] + signed_decimal(s.start.line) + seq!['.']
                    + signed_decimal(s.start.column) + seq![','] + signed_decimal(last.line)
                    + seq!['.'] + signed_decimal(last.column + bytes - 1) + seq!['|'] + face.text()
            }
        },
        a.len() > 0 && b.len() > 0 && a.last().face != b[0].face && s.printed == a + b ==> {
            let first = State { printed: a, ..s };
            let second = State { printed: b, start: cursor(s.start, first.text()), ..s };
            s.ranges() == first.ranges() + second.ranges()
        },
{
    law_text_of_cells(s.printed, i);
    if forall|k: int| 0 <= k < s.printed.len() ==> (#[trigger] s.printed[k]).face == face {
        law_range_of_one_face(s.start, s.printed, face);
    }
    if a.len() > 0 && b.len() > 0 && a.last().face != b[0].face && s.printed == a + b {
        law_ranges_split_at_face(s.start, a, b);
    }
}

/// Nothing printed gives nothing out.
pub proof fn law_no_output(s: State)
    requires
        s.printed.len() == 0,
    ensures
        s.text() == Seq::<char>::empty(),
        s.ranges() == Seq::<char>::empty(),
        s.fits(),
{
    law_what_fits(s.start, seq![]);
    assert(s.text() =~= Seq::<char>::empty());
    law_plain_text_has_no_ranges(s.start, s.printed);
}

/// A line of text behind an SGR sequence has one range, over all of its bytes, with
/// the face that the codes make of the plain one, unless that is the plain one still.
pub proof fn law_styled_line(start: Pos, params: Seq<char>, line: Seq<char>)
    requires
        are_parameters(params),
        params.len() < 1018,
        line.len() > 0,
        is_plain(line),
        is_one_line(line),
    ensures
        ({
            let input = seq!['\u{1B}', '['] + params + seq!['m'] + line;
            let t = State::initial(start).feed_all(input).flush();
            let plain = Face { fg: Color::Default, bg: Color::Default, attrs: 0 };
            let face = after_sgr(plain, codes_of(params));
            &&& t.text() == line
            &&& face == plain ==> t.ranges() == Seq::<char>::empty()
            &&& face != plain ==> t.ranges() == seq![' '] + signed_decimal(start.line) + seq!['.']
                + signed_decimal(start.column) + seq![','] + signed_decimal(start.line) + seq!['.']
                + signed_decimal(start.column + encode_utf8(line).len() - 1) + seq!['|']
                + face.text()
        }),
{
    let none = Seq::<char>::empty();
    let input = seq!['\u{1B}', '['] + params + seq!['m'] + line;
    let plain = Face { fg: Color::Default, bg: Color::Default, attrs: 0 };
    let face = after_sgr(plain, codes_of(params));
    law_csi_in_text(start, none, params, 'm', line);
    assert(none + (seq!['\u{1B}', '['] + params + seq!['m']) + line =~= input);
    assert(none + line =~= line);
    let t = State::initial(start).feed_all(input).flush();
    assert(t.printed =~= in_face(line, face));
    law_range_of_one_face(start, t.printed, face);
    let init = line.drop_last();
    assert forall|i: int| 0 <= i < init.len() implies #[trigger] init[i] != '\n' by {
        assert(init[i] == line[i]);
    }
    law_cursor_in_line(start, init);
    law_cursor_in_line(start, line);
    law_cursor_in_line(cursor(start, init), seq![line.last()]);
    law_cursor_concat(start, init, seq![line.last()]);
    assert(init + seq![line.last()] =~= line);
    assert(line.last() == line[line.len() - 1]);
}

} // verus!
