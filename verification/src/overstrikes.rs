//! What comes of characters that are struck over, for every input.

use crate::coord::Pos;
use crate::face::{Color, Face};
use crate::laws::{is_quiet, law_feed_in_pieces, let_go};
use crate::model::{Overstrike, State};
use crate::runs::Cell;
use crate::sequences::is_printed;
use vstd::prelude::*;

verus! {

/// What is left of `a` when the characters of `strikes` were struck over it, one
/// after the other: the last of them, but an underscore replaces nothing.
pub open spec fn left_over(a: char, strikes: Seq<char>) -> char
    decreases strikes.len(),
{
    if strikes.len() == 0 {
        a
    } else if strikes.last() == '_' {
        left_over(a, strikes.drop_last())
    } else {
        strikes.last()
    }
}

/// The attributes when the characters of `strikes` were struck over `a`: each adds
/// bold where it meets its like, and underline where it or what it meets is an
/// underscore.
pub open spec fn added_attrs(attrs: u16, a: char, strikes: Seq<char>) -> u16
    decreases strikes.len(),
{
    if strikes.len() == 0 {
        attrs
    } else {
        let before = added_attrs(attrs, a, strikes.drop_last());
        let met = left_over(a, strikes.drop_last());
        let strike = strikes.last();
        if strike == '_' && met == '_' {
            (before | 0x002) | 0x010
        } else if strike == '_' || met == '_' {
            before | 0x010
        } else if strike == met {
            before | 0x002
        } else {
            before
        }
    }
}

/// A backspace in front of each character of `strikes`.
pub open spec fn strike_text(strikes: Seq<char>) -> Seq<char>
    decreases strikes.len(),
{
    if strikes.len() == 0 {
        seq![]
    } else {
        strike_text(strikes.drop_last()) + seq!['\u{8}', strikes.last()]
    }
}

/// A character and what it is struck over with.
pub struct Struck {
    pub first: char,
    pub strikes: Seq<char>,
}

/// The input for characters that are struck over, one after the other.
pub open spec fn struck_text(all: Seq<Struck>) -> Seq<char>
    decreases all.len(),
{
    if all.len() == 0 {
        seq![]
    } else {
        struck_text(all.drop_last()) + (seq![all.last().first] + strike_text(all.last().strikes))
    }
}

/// Each character is struck over at least once.
pub open spec fn are_struck(all: Seq<Struck>) -> bool {
    forall|i: int|
        0 <= i < all.len() ==> (#[trigger] all[i]).first != '\u{8}' && all[i].strikes.len() > 0
}

/// The state with other attributes.
pub open spec fn with_attrs(s: State, attrs: u16) -> State {
    State { face: Face { fg: s.face.fg, bg: s.face.bg, attrs }, ..s }
}

/// What is left of each struck character passes the stages behind `overstrike`, in
/// order, with the attributes that have been added up to it.
pub open spec fn struck_course(s: State, all: Seq<Struck>) -> State
    decreases all.len(),
{
    if all.len() == 0 {
        s
    } else {
        let t = struck_course(s, all.drop_last());
        let one = all.last();
        with_attrs(t, added_attrs(t.face.attrs, one.first, one.strikes)).past_overstrike(
            left_over(one.first, one.strikes),
        )
    }
}

/// Two states that differ only in what they remember about overstrikes.
pub open spec fn same_screen(s: State, t: State) -> bool {
    &&& s.start == t.start
    &&& s.printed == t.printed
    &&& s.face == t.face
    &&& s.line_drawing == t.line_drawing
    &&& s.escape == t.escape
}

proof fn lemma_feed_two(s: State, a: char, b: char)
    ensures
        s.feed_all(seq![a, b]) == s.feed(a).feed(b),
        s.feed_all(seq![a]) == s.feed(a),
{
    reveal_with_fuel(State::feed_all, 3);
    assert(seq![a, b].skip(1)[0] == b);
    assert(seq![a, b].skip(1).skip(1) =~= Seq::<char>::empty());
    assert(seq![a].skip(1) =~= Seq::<char>::empty());
}

proof fn lemma_strikes(s: State, a: char, strikes: Seq<char>)
    requires
        !s.overstrike.backspace,
        s.overstrike.held == Some(a),
        strikes.len() > 0,
    ensures
        s.feed_all(strike_text(strikes)) == (State {
            overstrike: Overstrike {
                backspace: false,
                struck: true,
                styled: true,
                saved: if s.overstrike.styled {
                    s.overstrike.saved
                } else {
                    s.face.attrs
                },
                held: Some(left_over(a, strikes)),
            },
            ..with_attrs(s, added_attrs(s.face.attrs, a, strikes))
        }),
    decreases strikes.len(),
{
    let init = strikes.drop_last();
    let two = seq!['\u{8}', strikes.last()];
    law_feed_in_pieces(s, strike_text(init), two);
    lemma_feed_two(s.feed_all(strike_text(init)), '\u{8}', strikes.last());
    if init.len() > 0 {
        lemma_strikes(s, a, init);
    } else {
        assert(s.feed_all(strike_text(init)) == s);
        assert(added_attrs(s.face.attrs, a, init) == s.face.attrs);
        assert(left_over(a, init) == a);
    }
}

proof fn lemma_struck(s: State, all: Seq<Struck>)
    requires
        is_quiet(s),
        all.len() > 0,
        are_struck(all),
    ensures
        ({
            let from = s.flush();
            let t = struck_course(from, all.drop_last());
            let one = all.last();
            s.feed_all(struck_text(all)) == (State {
                overstrike: Overstrike {
                    backspace: false,
                    struck: true,
                    styled: true,
                    saved: from.face.attrs,
                    held: Some(left_over(one.first, one.strikes)),
                },
                ..with_attrs(t, added_attrs(t.face.attrs, one.first, one.strikes))
            })
        }),
    decreases all.len(),
{
    let init = all.drop_last();
    let one = all.last();
    let from = s.flush();
    assert(all[all.len() - 1] == one);
    assert(are_struck(init)) by {
        assert forall|i: int| 0 <= i < init.len() implies (#[trigger] init[i]).first != '\u{8}'
            && init[i].strikes.len() > 0 by {
            assert(init[i] == all[i]);
        }
    }
    let r = s.feed_all(struck_text(init));
    law_feed_in_pieces(s, struck_text(init), seq![one.first] + strike_text(one.strikes));
    law_feed_in_pieces(r, seq![one.first], strike_text(one.strikes));
    lemma_feed_two(r, one.first, one.first);
    let u = r.feed(one.first);
    let t = struck_course(from, init);
    if init.len() > 0 {
        lemma_struck(s, init);
        let prev = init.last();
        let v = struck_course(from, init.drop_last());
        lemma_past_is_apart(
            with_attrs(v, added_attrs(v.face.attrs, prev.first, prev.strikes)),
            Overstrike {
                backspace: false,
                struck: false,
                styled: true,
                saved: from.face.attrs,
                held: Some(one.first),
            },
            left_over(prev.first, prev.strikes),
        );
        assert(u == (State { overstrike: u.overstrike, ..t }));
        assert(u.overstrike.styled && u.overstrike.saved == from.face.attrs);
    } else {
        assert(r == s);
        if let Some(h) = s.overstrike.held {
            lemma_past_is_apart(let_go(s), Overstrike { held: Some(one.first), ..s.overstrike }, h);
        }
        assert(u == (State { overstrike: u.overstrike, ..t }));
        assert(!u.overstrike.styled);
    }
    lemma_strikes(u, one.first, one.strikes);
}

/// The stages behind `overstrike` do not know about overstrikes.
proof fn lemma_past_is_apart(s: State, o: Overstrike, ch: char)
    ensures
        (State { overstrike: o, ..s }).past_overstrike(ch) == (State {
            overstrike: o,
            ..s.past_overstrike(ch)
        }),
{
}

/// Struck characters come out as what is left of each, with the attributes of their
/// strikes. These stay for what follows directly, a further struck character or the
/// only character before the end of the input; with two characters more, and in
/// all that follows, the attributes are those from before.
pub proof fn law_struck_characters(s: State, all: Seq<Struck>, c: char, d: char)
    requires
        is_quiet(s),
        all.len() > 0,
        are_struck(all),
        c != '\u{8}',
        d != '\u{8}',
    ensures
        ({
            let from = s.flush();
            let to = struck_course(from, all);
            let input = struck_text(all);
            let on = s.feed_all(input + seq![c, d]);
            &&& same_screen(s.feed_all(input).flush(), to)
            &&& same_screen(s.feed_all(input + seq![c]).flush(), to.past_overstrike(c))
            &&& same_screen(on, with_attrs(to, from.face.attrs).past_overstrike(c))
            &&& is_quiet(on)
            &&& on.overstrike.held == Some(d)
        }),
{
    let from = s.flush();
    let to = struck_course(from, all);
    let input = struck_text(all);
    let r = s.feed_all(input);
    let one = all.last();
    let t = struck_course(from, all.drop_last());
    let w = with_attrs(t, added_attrs(t.face.attrs, one.first, one.strikes));
    let x = left_over(one.first, one.strikes);
    lemma_struck(s, all);
    law_feed_in_pieces(s, input, seq![c, d]);
    law_feed_in_pieces(s, input, seq![c]);
    lemma_feed_two(r, c, d);
    lemma_past_is_apart(w, Overstrike { held: None, ..r.overstrike }, x);
    lemma_past_is_apart(w, Overstrike { held: Some(c), struck: false, ..r.overstrike }, x);
    let u = r.feed(c);
    assert(u == (State {
        overstrike: Overstrike { held: Some(c), struck: false, ..r.overstrike },
        ..to
    }));
    lemma_past_is_apart(to, Overstrike { held: None, struck: false, ..r.overstrike }, c);
    let end = Overstrike { held: Some(d), struck: false, styled: false, ..r.overstrike };
    lemma_past_is_apart(with_attrs(to, from.face.attrs), end, c);
    assert(u.held_back(d) == (State { overstrike: end, ..with_attrs(to, from.face.attrs) }));
}

/// A held character is one that has just been read: the state is the one without it,
/// behind that character.
pub proof fn law_held_is_just_read(s: State, a: char)
    requires
        is_quiet(s),
        s.overstrike.held == Some(a),
        a != '\u{8}',
    ensures
        let_go(s).feed(a) == s,
{
}

/// A backspace with no character before it: the one behind it passes as it is, but
/// an underscore prints nothing and adds underline. As behind every overstrike, the
/// attributes from before come back with the second character more.
pub proof fn law_backspace_in_front(s: State, b: char, c: char, d: char)
    requires
        is_quiet(s),
        s.overstrike.held is None,
        c != '\u{8}',
        d != '\u{8}',
    ensures
        ({
            let input = seq!['\u{8}', b];
            let to = if b == '_' {
                with_attrs(s, s.face.attrs | 0x010)
            } else {
                s.past_overstrike(b)
            };
            let on = s.feed_all(input + seq![c, d]);
            &&& same_screen(s.feed_all(input).flush(), to)
            &&& same_screen(s.feed_all(input + seq![c]).flush(), to.past_overstrike(c))
            &&& same_screen(on, with_attrs(to, s.face.attrs).past_overstrike(c))
            &&& is_quiet(on)
            &&& on.overstrike.held == Some(d)
        }),
{
    let input = seq!['\u{8}', b];
    let r = s.feed_all(input);
    let to = if b == '_' {
        with_attrs(s, s.face.attrs | 0x010)
    } else {
        s.past_overstrike(b)
    };
    lemma_feed_two(s, '\u{8}', b);
    law_feed_in_pieces(s, input, seq![c]);
    law_feed_in_pieces(s, input, seq![c, d]);
    lemma_feed_two(r, c, d);
    let o = r.overstrike;
    let base = if b == '_' {
        to
    } else {
        s
    };
    assert(r == (State { overstrike: o, ..base }));
    assert(o.struck && o.styled && !o.backspace && o.saved == s.face.attrs);
    let waiting = Overstrike { held: Some(c), struck: false, ..o };
    let end = Overstrike { held: Some(d), struck: false, styled: false, ..o };
    lemma_past_is_apart(base, Overstrike { held: None, ..o }, b);
    lemma_past_is_apart(base, waiting, b);
    let u = r.feed(c);
    assert(u == (State { overstrike: waiting, ..to }));
    lemma_past_is_apart(to, Overstrike { held: None, ..waiting }, c);
    lemma_past_is_apart(with_attrs(to, s.face.attrs), end, c);
    assert(u.held_back(d) == (State { overstrike: end, ..with_attrs(to, s.face.attrs) }));
}

/// From the start of the input: a character struck over with itself is bold, one
/// struck over with an underscore or an underscore struck over with it is underlined,
/// and one that is struck over with another one is replaced by it.
pub proof fn law_bold_and_underlined(start: Pos, a: char, b: char)
    requires
        is_printed(a) && a != '_' && a != '\u{8}',
        is_printed(b) && b != '_' && b != a,
    ensures
        ({
            let s = State::initial(start);
            let look = |attrs: u16| Face { fg: Color::Default, bg: Color::Default, attrs };
            let bs = '\u{8}';
            &&& s.feed_all(seq![a, bs, a]).flush().printed == seq![Cell::of(a, look(0x002))]
            &&& s.feed_all(seq![a, bs, '_']).flush().printed == seq![Cell::of(a, look(0x010))]
            &&& s.feed_all(seq!['_', bs, a]).flush().printed == seq![Cell::of(a, look(0x010))]
            &&& s.feed_all(seq![a, bs, b]).flush().printed == seq![Cell::of(b, look(0))]
        }),
{
    let s = State::initial(start);
    lemma_one_strike(s, a, a);
    lemma_one_strike(s, a, '_');
    lemma_one_strike(s, '_', a);
    lemma_one_strike(s, a, b);
    assert(0u16 | 0x002 == 0x002 && 0u16 | 0x010 == 0x010) by (bit_vector);
}

proof fn lemma_one_strike(s: State, a: char, b: char)
    requires
        is_quiet(s),
        s.overstrike.held is None,
        s.escape is Ground,
        !s.line_drawing,
        a != '\u{8}',
        is_printed(
            if b == '_' {
                a
            } else {
                b
            },
        ),
    ensures
        s.feed_all(seq![a, '\u{8}', b]).flush().printed == s.printed.push(
            Cell::of(
                left_over(a, seq![b]),
                Face { attrs: added_attrs(s.face.attrs, a, seq![b]), ..s.face },
            ),
        ),
        left_over(a, seq![b]) == (if b == '_' {
            a
        } else {
            b
        }),
        a != b ==> added_attrs(s.face.attrs, a, seq![b]) == (if a == '_' || b == '_' {
            s.face.attrs | 0x010
        } else {
            s.face.attrs
        }),
        a == b && a != '_' ==> added_attrs(s.face.attrs, a, seq![b]) == s.face.attrs | 0x002,
{
    reveal_with_fuel(left_over, 2);
    reveal_with_fuel(added_attrs, 2);
    reveal_with_fuel(strike_text, 2);
    reveal_with_fuel(struck_text, 2);
    reveal_with_fuel(struck_course, 2);
    let one = Struck { first: a, strikes: seq![b] };
    let all = seq![one];
    assert(seq![b].drop_last() =~= Seq::<char>::empty());
    assert(all.drop_last() =~= Seq::<Struck>::empty());
    assert(strike_text(seq![b]) =~= seq!['\u{8}', b]);
    assert(struck_text(all) =~= seq![a, '\u{8}', b]);
    assert(are_struck(all));
    law_struck_characters(s, all, a, a);
}

} // verus!
