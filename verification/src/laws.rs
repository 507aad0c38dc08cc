//! What holds of the filter as a whole, for every input.

use crate::command::set_option_text;
use crate::coord::{
    cursor, is_one_line, law_start_moves_cursor, moved, origin, position, width, Pos,
};
use crate::decode::{decode_lossy, law_decode_concat};
use crate::face::{is_known, Face, ATTRIBUTES, BOLD, UNDERLINE};
use crate::model::{
    is_csi_param, lemma_feed_all_extends, lemma_flush_extends, Escape, Overstrike, State,
    BACKSPACE, BEL, CSI_PARAM_CAP, ESC, SI, SO,
};
use crate::runs::{
    first_byte, last_byte, law_plain_text_has_no_ranges, law_range_spec_is_one_word,
    law_runs_partition_by_face, range_spec, range_specs, runs_of, Cell, Run,
};
use crate::sgr::{after_sgr, codes_of, law_faces_stay_known};
use vstd::prelude::*;
use vstd::utf8::valid_utf8;

verus! {

/// Input can be fed in pieces: the state behind all of it is the same.
pub proof fn law_feed_in_pieces(s: State, a: Seq<char>, b: Seq<char>)
    ensures
        s.feed_all(a + b) == s.feed_all(a).feed_all(b),
    decreases a.len(),
{
    if a.len() == 0 {
        assert(a + b =~= b);
    } else {
        assert((a + b).skip(1) =~= a.skip(1) + b);
        law_feed_in_pieces(s.feed(a[0]), a.skip(1), b);
    }
}

/// Bytes can be fed in pieces, too, if each piece but the last ends between two
/// characters.
pub proof fn law_feed_bytes_in_pieces(s: State, a: Seq<u8>, b: Seq<u8>)
    requires
        valid_utf8(a),
    ensures
        s.feed_all(decode_lossy(a + b)) == s.feed_all(decode_lossy(a)).feed_all(decode_lossy(b)),
{
    law_decode_concat(a, b);
    law_feed_in_pieces(s, decode_lossy(a), decode_lossy(b));
}

/// `ch` is never printed: it starts a sequence, selects a character set, or is
/// deleted.
pub open spec fn is_swallowed(ch: char) -> bool {
    ch == ESC || ch == SO || ch == SI || ch == '\r'
}

/// No swallowed character is in the text.
pub open spec fn is_stripped(text: Seq<char>) -> bool {
    forall|i: int| 0 <= i < text.len() ==> !is_swallowed(#[trigger] text[i])
}

proof fn lemma_past_overstrike_strips(s: State, ch: char)
    requires
        is_stripped(s.text()),
    ensures
        is_stripped(s.past_overstrike(ch).text()),
{
    let (state, passed) = s.escape(ch);
    let end = s.past_overstrike(ch);
    assert(state.printed == s.printed);
    if let Some(c) = passed {
        assert(end.text() =~= s.text().push(state.translate(c)));
    }
}

proof fn lemma_feed_all_strips(s: State, chars: Seq<char>)
    requires
        is_stripped(s.text()),
    ensures
        is_stripped(s.feed_all(chars).text()),
    decreases chars.len(),
{
    if chars.len() > 0 {
        let (state, released) = s.overstrike(chars[0]);
        assert(state.text() =~= s.text());
        if let Some(c) = released {
            lemma_past_overstrike_strips(state, c);
        }
        lemma_feed_all_strips(s.feed(chars[0]), chars.skip(1));
    }
}

/// Whatever is read, the text that comes out holds no `ESC`, no carriage return,
/// and no shift.
pub proof fn law_output_is_stripped(start: Pos, chars: Seq<char>)
    ensures
        is_stripped(State::initial(start).feed_all(chars).flush().text()),
{
    let s = State::initial(start).feed_all(chars);
    lemma_feed_all_strips(State::initial(start), chars);
    if let Some(ch) = s.overstrike.held {
        let t = State { overstrike: Overstrike { held: None, ..s.overstrike }, ..s };
        assert(t.text() =~= s.text());
        lemma_past_overstrike_strips(t, ch);
    }
}

/// The stages behind `overstrike`, for one character after the other.
pub open spec fn past_all(s: State, chars: Seq<char>) -> State
    decreases chars.len(),
{
    if chars.len() == 0 {
        s
    } else {
        past_all(s.past_overstrike(chars[0]), chars.skip(1))
    }
}

pub proof fn lemma_past_all_concat(s: State, a: Seq<char>, b: Seq<char>)
    ensures
        past_all(s, a + b) == past_all(past_all(s, a), b),
    decreases a.len(),
{
    if a.len() == 0 {
        assert(a + b =~= b);
    } else {
        assert((a + b).skip(1) =~= a.skip(1) + b);
        lemma_past_all_concat(s.past_overstrike(a[0]), a.skip(1), b);
    }
}

pub proof fn lemma_past_all_one(s: State, ch: char)
    ensures
        past_all(s, seq![ch]) == s.past_overstrike(ch),
{
    reveal_with_fuel(past_all, 2);
    assert(seq![ch].skip(1) =~= Seq::<char>::empty());
}

/// No overstrike is going on.
pub open spec fn is_quiet(s: State) -> bool {
    !s.overstrike.backspace && !s.overstrike.struck && !s.overstrike.styled
}

/// The character that waits to be printed, if there is one.
pub open spec fn held_text(s: State) -> Seq<char> {
    match s.overstrike.held {
        Some(ch) => seq![ch],
        None => seq![],
    }
}

/// The state without a held character.
pub open spec fn let_go(s: State) -> State {
    State { overstrike: Overstrike { held: None, ..s.overstrike }, ..s }
}

/// No backspace is in the text.
pub open spec fn has_no_backspace(chars: Seq<char>) -> bool {
    forall|i: int| 0 <= i < chars.len() ==> #[trigger] chars[i] != BACKSPACE
}

/// Without backspaces the delay of one character does not show: by the end of the
/// input every character has passed the stages behind `overstrike`, in order.
pub proof fn law_delay_is_invisible(s: State, chars: Seq<char>)
    requires
        is_quiet(s),
        has_no_backspace(chars),
    ensures
        is_quiet(s.feed_all(chars)),
        s.feed_all(chars).flush() == past_all(let_go(s), held_text(s) + chars),
    decreases chars.len(),
{
    if chars.len() == 0 {
        assert(held_text(s) + chars =~= held_text(s));
        match s.overstrike.held {
            Some(ch) => lemma_past_all_one(let_go(s), ch),
            None => {},
        }
    } else {
        let ch = chars[0];
        let rest = chars.skip(1);
        let next = s.feed(ch);
        assert(ch != BACKSPACE);
        assert(next.overstrike == (Overstrike { held: Some(ch), ..s.overstrike }));
        law_delay_is_invisible(next, rest);
        assert(held_text(next) + rest =~= chars);
        let all = held_text(s) + chars;
        match s.overstrike.held {
            Some(h) => {
                assert(all.skip(1) =~= chars);
                assert(let_go(next) == let_go(s).past_overstrike(h));
            },
            None => {
                assert(all =~= chars);
                assert(let_go(next) == let_go(s));
            },
        }
    }
}

/// Characters in one face.
pub open spec fn in_face(chars: Seq<char>, face: Face) -> Seq<Cell> {
    chars.map_values(|ch: char| Cell::of(ch, face))
}

/// Outside of escape sequences and of line drawing, characters are printed as
/// they are, in the face of the moment.
pub proof fn law_text_is_printed(s: State, chars: Seq<char>)
    requires
        s.escape is Ground,
        !s.line_drawing,
        is_stripped(chars),
    ensures
        past_all(s, chars) == (State { printed: s.printed + in_face(chars, s.face), ..s }),
    decreases chars.len(),
{
    if chars.len() == 0 {
        assert(s.printed + in_face(chars, s.face) =~= s.printed);
    } else {
        let next = s.past_overstrike(chars[0]);
        assert(!is_swallowed(chars[0]));
        assert(next == s.display(chars[0]));
        assert forall|i: int| 0 <= i < chars.skip(1).len() implies !is_swallowed(
            #[trigger] chars.skip(1)[i],
        ) by {
            assert(chars.skip(1)[i] == chars[i + 1]);
        }
        law_text_is_printed(next, chars.skip(1));
        assert(next.printed + in_face(chars.skip(1), s.face) =~= s.printed + in_face(
            chars,
            s.face,
        ));
    }
}

/// Plain text comes out unchanged and without ranges.
pub proof fn law_plain_text_is_unchanged(start: Pos, chars: Seq<char>)
    requires
        is_stripped(chars),
        has_no_backspace(chars),
    ensures
        ({
            let end = State::initial(start).feed_all(chars).flush();
            end.text() == chars && end.ranges() == Seq::<char>::empty()
        }),
{
    let s = State::initial(start);
    let end = s.feed_all(chars).flush();
    law_delay_is_invisible(s, chars);
    assert(held_text(s) + chars =~= chars);
    law_text_is_printed(s, chars);
    assert(end.printed =~= in_face(chars, Face::plain()));
    assert(end.text() =~= chars);
    law_plain_text_has_no_ranges(start, end.printed);
}

/// Filtering twice is filtering once: text that came out of the filter passes it
/// unchanged, unless a literal backspace has survived in it.
pub proof fn law_filtering_is_idempotent(start: Pos, again: Pos, chars: Seq<char>)
    requires
        has_no_backspace(State::initial(start).feed_all(chars).flush().text()),
    ensures
        ({
            let text = State::initial(start).feed_all(chars).flush().text();
            let end = State::initial(again).feed_all(text).flush();
            end.text() == text && end.ranges() == Seq::<char>::empty()
        }),
{
    law_output_is_stripped(start, chars);
    law_plain_text_is_unchanged(again, State::initial(start).feed_all(chars).flush().text());
}

/// The characters between `ESC [` and the character that ends the sequence.
pub open spec fn is_csi_params(params: Seq<char>) -> bool {
    forall|i: int| 0 <= i < params.len() ==> is_csi_param(#[trigger] params[i], i as nat)
}

/// What is kept of the parameters of a CSI sequence.
pub open spec fn kept_params(params: Seq<char>) -> Seq<char> {
    if params.len() <= CSI_PARAM_CAP {
        params
    } else {
        params.take(CSI_PARAM_CAP as int)
    }
}

pub proof fn lemma_csi_params(s: State, params: Seq<char>)
    requires
        s.escape is Ground,
        is_csi_params(params),
    ensures
        past_all(s, seq![ESC, '['] + params) == (State {
            escape: Escape::Csi { params: kept_params(params) },
            ..s
        }),
    decreases params.len(),
{
    if params.len() == 0 {
        reveal_with_fuel(past_all, 3);
        let intro = seq![ESC, '['];
        assert(intro + params =~= intro);
        assert(intro.skip(1).skip(1) =~= Seq::<char>::empty());
        assert(intro.skip(1)[0] == '[');
        assert(kept_params(params) =~= Seq::<char>::empty());
    } else {
        let init = params.drop_last();
        let ch = params.last();
        assert(params[params.len() - 1] == ch);
        assert forall|i: int| 0 <= i < init.len() implies is_csi_param(
            #[trigger] init[i],
            i as nat,
        ) by {
            assert(init[i] == params[i]);
        }
        lemma_csi_params(s, init);
        assert(seq![ESC, '['] + params =~= (seq![ESC, '['] + init) + seq![ch]);
        lemma_past_all_concat(s, seq![ESC, '['] + init, seq![ch]);
        lemma_past_all_one(past_all(s, seq![ESC, '['] + init), ch);
        if params.len() <= CSI_PARAM_CAP {
            assert(init.push(ch) =~= params);
        } else {
            assert(kept_params(init) =~= kept_params(params));
        }
    }
}

/// A CSI sequence prints nothing. With the end `m` it applies its codes to the
/// face, unless it has too many parameter characters; all else stays as it is.
pub proof fn law_csi_sequence(s: State, params: Seq<char>, end: char)
    requires
        s.escape is Ground,
        is_csi_params(params),
        !is_csi_param(end, params.len()),
    ensures
        past_all(s, seq![ESC, '['] + params + seq![end]) == (State {
            face: if end == 'm' && params.len() < CSI_PARAM_CAP {
                after_sgr(s.face, codes_of(params))
            } else {
                s.face
            },
            ..s
        }),
{
    lemma_csi_params(s, params);
    lemma_past_all_concat(s, seq![ESC, '['] + params, seq![end]);
    lemma_past_all_one(past_all(s, seq![ESC, '['] + params), end);
}

/// The contents of an OSC sequence hold nothing that would end it.
pub open spec fn is_osc_body(body: Seq<char>) -> bool {
    forall|i: int|
        0 <= i < body.len() ==> #[trigger] body[i] != BEL && !(body[i] == '\\' && i > 0 && body[i - 1]
            == ESC)
}

pub proof fn lemma_osc_body(s: State, body: Seq<char>)
    requires
        s.escape is Ground,
        is_osc_body(body),
    ensures
        past_all(s, seq![ESC, ']'] + body) == (State {
            escape: Escape::Osc { prev: if body.len() == 0 { ']' } else { body.last() } },
            ..s
        }),
    decreases body.len(),
{
    if body.len() == 0 {
        reveal_with_fuel(past_all, 3);
        let intro = seq![ESC, ']'];
        assert(intro + body =~= intro);
        assert(intro.skip(1).skip(1) =~= Seq::<char>::empty());
        assert(intro.skip(1)[0] == ']');
    } else {
        let init = body.drop_last();
        let ch = body.last();
        assert(body[body.len() - 1] == ch);
        assert forall|i: int| 0 <= i < init.len() implies #[trigger] init[i] != BEL && !(init[i]
            == '\\' && i > 0 && init[i - 1] == ESC) by {
            assert(init[i] == body[i]);
        }
        lemma_osc_body(s, init);
        assert(seq![ESC, ']'] + body =~= (seq![ESC, ']'] + init) + seq![ch]);
        lemma_past_all_concat(s, seq![ESC, ']'] + init, seq![ch]);
        lemma_past_all_one(past_all(s, seq![ESC, ']'] + init), ch);
    }
}

/// An OSC sequence, however long, leaves no trace, whether it ends in `BEL` or in
/// `ESC \`.
pub proof fn law_osc_sequence(s: State, body: Seq<char>)
    requires
        s.escape is Ground,
        is_osc_body(body),
    ensures
        past_all(s, seq![ESC, ']'] + body + seq![BEL]) == s,
        past_all(s, seq![ESC, ']'] + body + seq![ESC, '\\']) == s,
{
    lemma_osc_body(s, body);
    lemma_past_all_concat(s, seq![ESC, ']'] + body, seq![BEL]);
    lemma_past_all_one(past_all(s, seq![ESC, ']'] + body), BEL);
    let more = body.push(ESC);
    assert(is_osc_body(more)) by {
        assert forall|i: int| 0 <= i < more.len() implies #[trigger] more[i] != BEL && !(more[i]
            == '\\' && i > 0 && more[i - 1] == ESC) by {
            if i < body.len() {
                assert(more[i] == body[i]);
            }
        }
    }
    lemma_osc_body(s, more);
    assert(seq![ESC, ']'] + body + seq![ESC, '\\'] =~= (seq![ESC, ']'] + more) + seq!['\\']);
    lemma_past_all_concat(s, seq![ESC, ']'] + more, seq!['\\']);
    lemma_past_all_one(past_all(s, seq![ESC, ']'] + more), '\\');
}

/// An OSC sequence that does not end prints nothing.
pub proof fn law_unterminated_osc(s: State, body: Seq<char>)
    requires
        s.escape is Ground,
        is_osc_body(body),
    ensures
        past_all(s, seq![ESC, ']'] + body).printed == s.printed,
{
    lemma_osc_body(s, body);
}

/// `ESC (` and one more character print nothing: `0` selects line drawing, `B`
/// ends it, and any other changes nothing.
pub proof fn law_charset_sequence(s: State, ch: char)
    requires
        s.escape is Ground,
    ensures
        past_all(s, seq![ESC, '(', ch]) == (State {
            line_drawing: ch == '0' || (s.line_drawing && ch != 'B'),
            ..s
        }),
{
    reveal_with_fuel(past_all, 4);
    let all = seq![ESC, '(', ch];
    assert(all.skip(1)[0] == '(');
    assert(all.skip(1).skip(1)[0] == ch);
    assert(all.skip(1).skip(1).skip(1) =~= Seq::<char>::empty());
}

/// An `ESC` that introduces nothing goes away: what follows is read as if it were
/// not there.
pub proof fn law_lone_escape(s: State, ch: char)
    requires
        s.escape is Ground,
        ch != '[' && ch != ']' && ch != '(',
    ensures
        past_all(s, seq![ESC, ch]) == s.past_overstrike(ch),
{
    reveal_with_fuel(past_all, 3);
    let all = seq![ESC, ch];
    assert(all.skip(1)[0] == ch);
    assert(all.skip(1).skip(1) =~= Seq::<char>::empty());
}

/// Carriage returns and shifts print nothing outside of sequences: the one
/// changes nothing, shift out selects line drawing and shift in ends it.
pub proof fn law_single_controls(s: State)
    requires
        s.escape is Ground,
    ensures
        s.past_overstrike('\r') == s,
        s.past_overstrike(SO) == (State { line_drawing: true, ..s }),
        s.past_overstrike(SI) == (State { line_drawing: false, ..s }),
{
}

/// Which characters are printed does not depend on their faces, nor on what was
/// struck over before.
#[verifier::rlimit(30)]
proof fn lemma_same_course(s: State, r: State, chars: Seq<char>)
    requires
        s.escape == r.escape,
        s.line_drawing == r.line_drawing,
        s.overstrike.held == r.overstrike.held,
        !s.overstrike.backspace,
        !r.overstrike.backspace,
        has_no_backspace(chars),
    ensures
        s.feed_all(chars).flush().printed.len() - s.printed.len() == r.feed_all(
            chars,
        ).flush().printed.len() - r.printed.len(),
    decreases chars.len(),
{
    if chars.len() > 0 {
        assert(chars[0] != BACKSPACE);
        lemma_same_course(s.feed(chars[0]), r.feed(chars[0]), chars.skip(1));
    }
}

/// The text of an SGR sequence.
pub open spec fn sgr_sequence(params: Seq<char>) -> Seq<char> {
    seq![ESC, '['] + params + seq!['m']
}

/// An SGR sequence at the end of the input changes nothing of what comes out: a
/// face that nothing was printed in has no range, and the last run keeps its own.
///
/// The sequence must be read as one, so the input before it ends outside of any
/// other and not in a backspace. The character before it must be one whose
/// attributes do not change with the next one: the first behind an overstrike
/// still has those of the overstrike when the input ends with it.
#[verifier::rlimit(30)]
pub proof fn law_trailing_sgr(s: State, params: Seq<char>)
    requires
        s.flush().escape is Ground,
        !s.overstrike.backspace,
        s.overstrike.styled && !s.overstrike.struck ==> s.overstrike.saved == s.face.attrs,
        is_csi_params(params),
    ensures
        s.feed_all(sgr_sequence(params)).flush().text() == s.flush().text(),
        s.feed_all(sgr_sequence(params)).flush().ranges() == s.flush().ranges(),
{
    let sgr = sgr_sequence(params);
    let rest = sgr.skip(1);
    assert forall|i: int| 0 <= i < rest.len() implies #[trigger] rest[i] != BACKSPACE by {
        assert(rest[i] == sgr[i + 1]);
        if 0 < i < rest.len() - 1 {
            assert(rest[i] == params[i - 1]);
        }
    }
    let t = s.feed(ESC);
    assert(sgr[0] == ESC);
    assert(t.printed == s.flush().printed);
    assert(t.escape == s.flush().escape);
    let quiet = Overstrike {
        backspace: false,
        struck: false,
        styled: false,
        saved: 0,
        held: Some(ESC),
    };
    let r = State { overstrike: quiet, ..t };
    law_delay_is_invisible(r, rest);
    assert(held_text(r) + rest =~= sgr);
    law_csi_sequence(let_go(r), params, 'm');
    lemma_same_course(t, r, rest);
    lemma_feed_all_extends(t, rest);
    lemma_flush_extends(t.feed_all(rest));
    assert(t.feed_all(rest).flush().printed =~= t.printed);
}

/// The attributes of `a` struck over with `b`: bold if they are the same,
/// underlined if one of them is an underscore.
pub open spec fn struck_attrs(attrs: u16, a: char, b: char) -> u16 {
    let bold = if a == b {
        attrs | BOLD
    } else {
        attrs
    };
    if a == '_' || b == '_' {
        bold | UNDERLINE
    } else {
        bold
    }
}

/// What is left of `a` struck over with `b`: the later one, unless it only
/// underlines.
pub open spec fn struck_char(a: char, b: char) -> char {
    if b == '_' {
        a
    } else {
        b
    }
}

/// A character, a backspace and another character leave one character to be
/// printed, with the attributes of the overstrike, and print nothing themselves.
pub proof fn law_overstrike(s: State, a: char, b: char)
    requires
        !s.overstrike.backspace,
        a != BACKSPACE,
    ensures
        ({
            let once = s.feed(a);
            let struck = s.feed_all(seq![a, BACKSPACE, b]);
            &&& struck.printed == once.printed
            &&& struck.overstrike.held == Some(struck_char(a, b))
            &&& struck.face == (Face {
                attrs: struck_attrs(once.face.attrs, a, b),
                ..once.face
            })
            &&& struck.escape == once.escape
            &&& struck.line_drawing == once.line_drawing
        }),
{
    lemma_feed_three(s, a, BACKSPACE, b);
}

proof fn lemma_feed_three(s: State, a: char, b: char, c: char)
    ensures
        s.feed_all(seq![a, b, c]) == s.feed(a).feed(b).feed(c),
{
    reveal_with_fuel(State::feed_all, 4);
    let all = seq![a, b, c];
    assert(all.skip(1)[0] == b);
    assert(all.skip(1).skip(1)[0] == c);
    assert(all.skip(1).skip(1).skip(1) =~= Seq::<char>::empty());
}

/// The attributes of an overstrike end with it: in plain text, what follows is
/// printed in the face from before as soon as one more character is read.
pub proof fn law_overstrike_ends(s: State, a: char, b: char, next: char, more: char)
    requires
        is_quiet(s),
        s.overstrike.held is None,
        s.escape is Ground,
        !s.line_drawing,
        a != BACKSPACE,
        next != BACKSPACE,
        more != BACKSPACE,
        !is_swallowed(struck_char(a, b)),
        !is_swallowed(next),
    ensures
        ({
            let end = s.feed_all(seq![a, BACKSPACE, b] + seq![next, more]);
            let styled = Face { attrs: struck_attrs(s.face.attrs, a, b), ..s.face };
            &&& end.printed == s.printed.push(Cell::of(struck_char(a, b), styled)).push(
                Cell::of(next, s.face),
            )
            &&& end.face == s.face
            &&& is_quiet(end)
        }),
{
    let struck = s.feed_all(seq![a, BACKSPACE, b]);
    let two = seq![next, more];
    law_feed_in_pieces(s, seq![a, BACKSPACE, b], two);
    lemma_feed_three(s, a, BACKSPACE, b);
    reveal_with_fuel(State::feed_all, 3);
    assert(two.skip(1)[0] == more);
    assert(two.skip(1).skip(1) =~= Seq::<char>::empty());
    assert(struck.feed_all(two) == struck.feed(next).feed(more));
}

/// Every face in a state can be written.
pub open spec fn is_known_state(s: State) -> bool {
    &&& is_known(s.face)
    &&& s.overstrike.saved & !ATTRIBUTES == 0
    &&& forall|i: int| 0 <= i < s.printed.len() ==> is_known((#[trigger] s.printed[i]).face)
}

proof fn lemma_past_overstrike_known(s: State, ch: char)
    requires
        is_known_state(s),
    ensures
        is_known_state(s.past_overstrike(ch)),
{
    if let Escape::Csi { params } = s.escape {
        law_faces_stay_known(s.face, codes_of(params));
    }
}

proof fn lemma_feed_all_known(s: State, chars: Seq<char>)
    requires
        is_known_state(s),
    ensures
        is_known_state(s.feed_all(chars)),
    decreases chars.len(),
{
    if chars.len() > 0 {
        let (state, released) = s.overstrike(chars[0]);
        let a = s.face.attrs;
        assert(a & !ATTRIBUTES == 0 ==> (a | BOLD) & !ATTRIBUTES == 0 && (a | UNDERLINE)
            & !ATTRIBUTES == 0 && ((a | BOLD) | UNDERLINE) & !ATTRIBUTES == 0) by (bit_vector);
        assert(is_known_state(state));
        if let Some(c) = released {
            lemma_past_overstrike_known(state, c);
        }
        lemma_feed_all_known(s.feed(chars[0]), chars.skip(1));
    }
}

/// Whatever is read, every face that text is printed in can be written.
pub proof fn law_printed_faces_are_known(start: Pos, chars: Seq<char>)
    ensures
        is_known_state(State::initial(start).feed_all(chars).flush()),
{
    let s = State::initial(start).feed_all(chars);
    assert(0u16 & !ATTRIBUTES == 0) by (bit_vector);
    lemma_feed_all_known(State::initial(start), chars);
    if let Some(ch) = s.overstrike.held {
        let t = State { overstrike: Overstrike { held: None, ..s.overstrike }, ..s };
        lemma_past_overstrike_known(t, ch);
    }
}

proof fn lemma_ranges_are_one_line(start: Pos, text: Seq<char>, runs: Seq<Run>)
    requires
        forall|i: int| 0 <= i < runs.len() ==> (#[trigger] runs[i]).face.wf(),
    ensures
        is_one_line(range_specs(start, text, runs)),
    decreases runs.len(),
{
    if runs.len() > 0 {
        let init = runs.drop_last();
        let spec = range_spec(start, text, runs.last());
        let specs = range_specs(start, text, init);
        assert(runs.last() == runs[runs.len() - 1]);
        assert forall|i: int| 0 <= i < init.len() implies (#[trigger] init[i]).face.wf() by {
            assert(init[i] == runs[i]);
        }
        lemma_ranges_are_one_line(start, text, init);
        law_range_spec_is_one_word(start, text, runs.last());
        assert forall|i: int| 0 <= i < spec.len() implies #[trigger] spec[i] != '\n' by {
            if i > 0 {
                assert(spec[i] == spec.skip(1)[i - 1]);
            }
        }
    }
}

/// The command for the ranges is one line, whatever was read: its only newline is
/// at its end.
pub proof fn law_set_option_is_one_line(start: Pos, chars: Seq<char>)
    ensures
        ({
            let command = set_option_text(State::initial(start).feed_all(chars).flush().ranges());
            command.last() == '\n' && is_one_line(command.drop_last())
        }),
{
    let s = State::initial(start).feed_all(chars).flush();
    let runs = runs_of(s.printed);
    law_printed_faces_are_known(start, chars);
    law_runs_partition_by_face(s.printed);
    assert forall|i: int| 0 <= i < runs.len() implies (#[trigger] runs[i]).face.wf() by {
        assert(s.printed[runs[i].from].face == runs[i].face);
    }
    lemma_ranges_are_one_line(s.start, s.text(), runs);
    reveal_strlit("set-option -add buffer ansi_color_ranges");
    reveal_strlit("\n");
    let command = set_option_text(s.ranges());
    assert(command.drop_last() =~= "set-option -add buffer ansi_color_ranges"@ + s.ranges());
}

proof fn lemma_cursor_bounds(start: Pos, text: Seq<char>)
    ensures
        cursor(start, text).line <= start.line + text.len(),
        cursor(start, text).column <= start.column + 4 * text.len() || cursor(start, text).column
            <= 1 + 4 * text.len(),
    decreases text.len(),
{
    if text.len() > 0 {
        lemma_cursor_bounds(start, text.drop_last());
        assert(width(text.last()) <= 4);
    }
}

proof fn lemma_printed_len(s: State, chars: Seq<char>)
    ensures
        s.feed_all(chars).printed.len() <= s.printed.len() + chars.len(),
        s.overstrike.held is None && chars.len() > 0 ==> s.feed_all(chars).printed.len()
            < s.printed.len() + chars.len(),
        s.overstrike.held is None && chars.len() == 0 ==> s.feed_all(
            chars,
        ).overstrike.held is None,
    decreases chars.len(),
{
    if chars.len() > 0 {
        lemma_printed_len(s.feed(chars[0]), chars.skip(1));
    }
}

/// Input of an ordinary size can be read: each character moves the cursor by at
/// most one line or four columns.
pub proof fn law_small_input_fits(start: Pos, chars: Seq<char>)
    requires
        start.line + chars.len() <= i32::MAX,
        start.column + 4 * chars.len() <= i32::MAX,
        1 + 4 * chars.len() <= i32::MAX,
    ensures
        State::initial(start).feed_all(chars).fits(),
        State::initial(start).feed_all(chars).flush().fits(),
{
    let s = State::initial(start);
    let end = s.feed_all(chars).flush();
    let text = end.text();
    lemma_printed_len(s, chars);
    lemma_feed_all_extends(s, chars);
    lemma_flush_extends(s.feed_all(chars));
    assert(text.len() <= chars.len());
    assert forall|i: int| 0 <= i < text.len() implies (#[trigger] position(
        start,
        text,
        i,
    )).has_room(text[i]) by {
        lemma_cursor_bounds(start, text.take(i));
        assert(width(text[i]) <= 4);
    }
}

/// The text that comes out has no more characters than went in.
pub proof fn law_output_is_no_longer(start: Pos, chars: Seq<char>)
    ensures
        State::initial(start).feed_all(chars).flush().text().len() <= chars.len(),
{
    lemma_printed_len(State::initial(start), chars);
}

/// The state with another start.
pub open spec fn with_start(s: State, start: Pos) -> State {
    State { start, ..s }
}

proof fn lemma_start_is_not_read(s: State, start: Pos, chars: Seq<char>)
    ensures
        with_start(s, start).feed_all(chars) == with_start(s.feed_all(chars), start),
    decreases chars.len(),
{
    if chars.len() > 0 {
        assert(with_start(s, start).feed(chars[0]) == with_start(s.feed(chars[0]), start));
        lemma_start_is_not_read(s.feed(chars[0]), start, chars.skip(1));
    }
}

/// The start decides nothing but coordinates: what is printed, and in which faces,
/// does not depend on it, and every range goes where the move from `1.1` to the
/// start takes it.
pub proof fn law_start_only_moves_ranges(start: Pos, chars: Seq<char>, i: int)
    ensures
        ({
            let here = State::initial(start).feed_all(chars).flush();
            let there = State::initial(origin()).feed_all(chars).flush();
            let run = runs_of(there.printed)[i];
            &&& here.printed == there.printed
            &&& 0 <= i < runs_of(there.printed).len() ==> {
                &&& first_byte(start, here.text(), run) == moved(
                    first_byte(origin(), there.text(), run),
                    start,
                )
                &&& last_byte(start, here.text(), run) == moved(
                    last_byte(origin(), there.text(), run),
                    start,
                )
            }
        }),
{
    let there = State::initial(origin()).feed_all(chars);
    assert(State::initial(start) == with_start(State::initial(origin()), start));
    lemma_start_is_not_read(State::initial(origin()), start, chars);
    assert(with_start(there, start).flush() == with_start(there.flush(), start));
    let text = there.flush().text();
    let run = runs_of(there.flush().printed)[i];
    law_start_moves_cursor(start, text.take(run.from));
    law_start_moves_cursor(start, text.take(run.to - 1));
}

} // verus!
