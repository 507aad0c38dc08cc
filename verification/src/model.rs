//! What the filter does, character by character, as functions on states.
//!
//! A character passes the stages `overstrike`, `escape`, `translate` and
//! `display` in this order; each of the first two can keep it back.

use crate::coord::{fits, position, Pos};
use crate::face::{Face, BOLD, UNDERLINE};
use crate::runs::{range_specs, runs_of, text_of, Cell};
use crate::sgr::{after_sgr, codes_of};
use crate::text::is_digit;
use vstd::prelude::*;

verus! {

pub const BEL: char = '\u{7}';

pub const BACKSPACE: char = '\u{8}';

/// Shift out: selects line drawing.
pub const SO: char = '\u{E}';

/// Shift in: back to plain characters.
pub const SI: char = '\u{F}';

pub const ESC: char = '\u{1B}';

/// How many parameter characters a CSI sequence keeps. Those past the cap are
/// dropped, and an SGR sequence that has reached it is dropped whole: codes cut
/// off in the middle would say something else.
pub const CSI_PARAM_CAP: usize = 1018;

/// Where the filter stands in an escape sequence.
pub enum Escape {
    /// Outside of one.
    Ground,
    /// After `ESC`.
    Started,
    /// After `ESC [`, with the parameter characters so far, up to the cap.
    Csi { params: Seq<char> },
    /// After `ESC ]`, with the character before the next one.
    Osc { prev: char },
    /// After `ESC (`.
    Charset,
}

/// The delay of one character in which overstrikes show: `x BACKSPACE x` is a
/// bold `x`, `_ BACKSPACE x` and `x BACKSPACE _` an underlined one.
pub struct Overstrike {
    /// The character before was a backspace.
    pub backspace: bool,
    /// The held character was struck over.
    pub struck: bool,
    /// An overstrike has changed the attributes, which were `saved` before.
    pub styled: bool,
    pub saved: u16,
    /// The character that waits to be printed.
    pub held: Option<char>,
}

/// All that the filter remembers.
pub struct State {
    /// Where the first character goes.
    pub start: Pos,
    /// What was printed so far.
    pub printed: Seq<Cell>,
    /// The face of what is printed next.
    pub face: Face,
    /// Whether letters stand for line-drawing characters.
    pub line_drawing: bool,
    pub escape: Escape,
    pub overstrike: Overstrike,
}

/// What `ch` stands for in the line-drawing character set.
pub open spec fn line_drawing_char(ch: char) -> char {
    if ch == 'j' {
        '┘'
    } else if ch == 'k' {
        '┐'
    } else if ch == 'l' {
        '┌'
    } else if ch == 'm' {
        '└'
    } else if ch == 'n' {
        '┼'
    } else if ch == 'q' {
        '─'
    } else if ch == 't' {
        '├'
    } else if ch == 'u' {
        '┤'
    } else if ch == 'v' {
        '┴'
    } else if ch == 'w' {
        '┬'
    } else if ch == 'x' {
        '│'
    } else {
        ch
    }
}

/// `ch` continues the parameters of a CSI sequence that has `len` of them; a
/// `?` does so only as the first.
pub open spec fn is_csi_param(ch: char, len: nat) -> bool {
    (len == 0 && ch == '?') || ch == ';' || ch == ':' || is_digit(ch)
}

impl State {
    /// Nothing read, nothing printed.
    pub open spec fn initial(start: Pos) -> State {
        State {
            start,
            printed: seq![],
            face: Face::plain(),
            line_drawing: false,
            escape: Escape::Ground,
            overstrike: Overstrike {
                backspace: false,
                struck: false,
                styled: false,
                saved: 0,
                held: None,
            },
        }
    }

    /// The printed text.
    pub open spec fn text(self) -> Seq<char> {
        text_of(self.printed)
    }

    /// The range-specs of the printed text.
    pub open spec fn ranges(self) -> Seq<char> {
        range_specs(self.start, self.text(), runs_of(self.printed))
    }

    /// Every coordinate of the printed text fits an `i32`.
    pub open spec fn fits(self) -> bool {
        fits(self.start, self.text())
    }

    /// Overstrike, with a character behind a backspace: it takes the place of
    /// the held one, in bold if it is the same, underlined if one of the two is
    /// an underscore. An underscore leaves the held character in its place.
    pub open spec fn struck_over(self, ch: char) -> State {
        let os = self.overstrike;
        let bold = if os.held == Some(ch) {
            self.face.attrs | BOLD
        } else {
            self.face.attrs
        };
        let attrs = if ch == '_' || os.held == Some('_') {
            bold | UNDERLINE
        } else {
            bold
        };
        State {
            face: Face { attrs, ..self.face },
            overstrike: Overstrike {
                backspace: false,
                struck: true,
                styled: true,
                saved: if os.styled {
                    os.saved
                } else {
                    self.face.attrs
                },
                held: if ch == '_' {
                    os.held
                } else {
                    Some(ch)
                },
            },
            ..self
        }
    }

    /// Overstrike, with any other character: it is held, and the one held before
    /// is let go. The attributes from before an overstrike come back with the
    /// second character behind it: by then the struck one has been let go.
    pub open spec fn held_back(self, ch: char) -> State {
        let os = self.overstrike;
        let restored = !os.struck && os.styled;
        State {
            face: if restored {
                Face { attrs: os.saved, ..self.face }
            } else {
                self.face
            },
            overstrike: Overstrike {
                struck: false,
                styled: os.styled && !restored,
                held: Some(ch),
                ..os
            },
            ..self
        }
    }

    /// The stage `overstrike`, and the character that leaves it.
    pub open spec fn overstrike(self, ch: char) -> (State, Option<char>) {
        if self.overstrike.backspace {
            (self.struck_over(ch), None)
        } else if ch == BACKSPACE {
            (State { overstrike: Overstrike { backspace: true, ..self.overstrike }, ..self }, None)
        } else {
            (self.held_back(ch), self.overstrike.held)
        }
    }

    /// The stage `escape` outside of a sequence: carriage returns go away, the
    /// shifts select a character set, `ESC` starts a sequence, all else passes.
    pub open spec fn ground(self, ch: char) -> (State, Option<char>) {
        let state = State { escape: Escape::Ground, ..self };
        if ch == '\r' {
            (state, None)
        } else if ch == SO {
            (State { line_drawing: true, ..state }, None)
        } else if ch == SI {
            (State { line_drawing: false, ..state }, None)
        } else if ch == ESC {
            (State { escape: Escape::Started, ..state }, None)
        } else {
            (state, Some(ch))
        }
    }

    /// The character that ends a CSI sequence: `m` applies its codes, unless it
    /// has reached the cap; any other does nothing.
    pub open spec fn csi_end(self, params: Seq<char>, ch: char) -> State {
        State {
            face: if ch == 'm' && params.len() < CSI_PARAM_CAP {
                after_sgr(self.face, codes_of(params))
            } else {
                self.face
            },
            escape: Escape::Ground,
            ..self
        }
    }

    /// The stage `escape`, and the character that leaves it.
    pub open spec fn escape(self, ch: char) -> (State, Option<char>) {
        match self.escape {
            Escape::Ground => self.ground(ch),
            Escape::Started => {
                if ch == '[' {
                    (State { escape: Escape::Csi { params: seq![] }, ..self }, None)
                } else if ch == ']' {
                    (State { escape: Escape::Osc { prev: ']' }, ..self }, None)
                } else if ch == '(' {
                    (State { escape: Escape::Charset, ..self }, None)
                } else {
                    self.ground(ch)
                }
            },
            Escape::Csi { params } => {
                if !is_csi_param(ch, params.len()) {
                    (self.csi_end(params, ch), None)
                } else if params.len() < CSI_PARAM_CAP {
                    (State { escape: Escape::Csi { params: params.push(ch) }, ..self }, None)
                } else {
                    (self, None)
                }
            },
            Escape::Osc { prev } => {
                if ch == BEL || (ch == '\\' && prev == ESC) {
                    (State { escape: Escape::Ground, ..self }, None)
                } else {
                    (State { escape: Escape::Osc { prev: ch }, ..self }, None)
                }
            },
            Escape::Charset => {
                let line_drawing = if ch == '0' {
                    true
                } else if ch == 'B' {
                    false
                } else {
                    self.line_drawing
                };
                (State { escape: Escape::Ground, line_drawing, ..self }, None)
            },
        }
    }

    /// The stage `translate`.
    pub open spec fn translate(self, ch: char) -> char {
        if self.line_drawing {
            line_drawing_char(ch)
        } else {
            ch
        }
    }

    /// The stage `display`: `ch` is printed in the face of the moment.
    pub open spec fn display(self, ch: char) -> State {
        State { printed: self.printed.push(Cell { ch, face: self.face }), ..self }
    }

    /// The stages behind `overstrike`.
    pub open spec fn past_overstrike(self, ch: char) -> State {
        let (state, passed) = self.escape(ch);
        match passed {
            Some(c) => state.display(state.translate(c)),
            None => state,
        }
    }

    /// All stages.
    pub open spec fn feed(self, ch: char) -> State {
        let (state, released) = self.overstrike(ch);
        match released {
            Some(c) => state.past_overstrike(c),
            None => state,
        }
    }

    /// All stages, for one character after the other.
    pub open spec fn feed_all(self, chars: Seq<char>) -> State
        decreases chars.len(),
    {
        if chars.len() == 0 {
            self
        } else {
            self.feed(chars[0]).feed_all(chars.skip(1))
        }
    }

    /// The end of the input: the held character goes through the stages behind
    /// `overstrike`.
    pub open spec fn flush(self) -> State {
        match self.overstrike.held {
            Some(ch) => State {
                overstrike: Overstrike { held: None, ..self.overstrike },
                ..self
            }.past_overstrike(ch),
            None => self,
        }
    }
}

/// Reading only prints more: what was printed stays as it is.
pub proof fn lemma_feed_all_extends(s: State, chars: Seq<char>)
    ensures
        s.printed.is_prefix_of(s.feed_all(chars).printed),
        s.feed_all(chars).start == s.start,
    decreases chars.len(),
{
    if chars.len() > 0 {
        lemma_feed_all_extends(s.feed(chars[0]), chars.skip(1));
    }
}

/// The end of the input only prints more.
pub proof fn lemma_flush_extends(s: State)
    ensures
        s.printed.is_prefix_of(s.flush().printed),
        s.flush().start == s.start,
        s.flush().fits() ==> s.fits(),
        s.flush().flush() == s.flush(),
{
    if s.flush().fits() {
        lemma_fits_prefix(s, s.flush());
    }
}

/// A text fits if one fits that starts with it.
pub proof fn lemma_fits_prefix(s: State, t: State)
    requires
        s.start == t.start,
        s.printed.is_prefix_of(t.printed),
        t.fits(),
    ensures
        s.fits(),
{
    let a = s.text();
    let b = t.text();
    assert forall|i: int| 0 <= i < a.len() implies (#[trigger] position(s.start, a, i)).has_room(
        a[i],
    ) by {
        assert(a.take(i) =~= b.take(i));
        assert(position(t.start, b, i).has_room(b[i]));
    }
}

} // verus!
