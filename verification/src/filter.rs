//! The filter itself.

use crate::coord::{
    cursor, lemma_fits_push, lemma_position_push, lemma_positions_increase, position, width_of,
    Coord, Pos,
};
use crate::decode::{decode_lossy, decode_next};
use crate::face::{Face, BOLD, UNDERLINE};
use crate::model::{
    lemma_feed_all_extends, lemma_fits_prefix, lemma_flush_extends, Escape, Overstrike, State,
    BACKSPACE, BEL, CSI_PARAM_CAP, ESC, SI, SO,
};
use crate::runs::{law_runs_partition_by_face, lemma_range_specs_push, range_specs, runs_of, Cell};
use crate::sgr::{lemma_after_codes_wf, parse_codes};
use crate::text::is_ascii_digit;
use vstd::prelude::*;

verus! {

enum Esc {
    Ground,
    /// Saw `ESC`, waits for what it introduces.
    Esc,
    /// `ESC [`: `params` holds the first parameter characters, `len` of them.
    Csi { params: String, len: usize },
    /// `ESC ]`: the contents are ignored; `prev` shows the end, `ESC \`.
    Osc { prev: char },
    /// `ESC (`: one more character selects the character set.
    Charset,
}

impl Esc {
    spec fn inv(self) -> bool {
        match self {
            Esc::Csi { params, len } => len == params@.len() && len <= CSI_PARAM_CAP,
            _ => true,
        }
    }

    spec fn view(self) -> Escape {
        match self {
            Esc::Ground => Escape::Ground,
            Esc::Esc => Escape::Started,
            Esc::Csi { params, .. } => Escape::Csi { params: params@ },
            Esc::Osc { prev } => Escape::Osc { prev },
            Esc::Charset => Escape::Charset,
        }
    }
}

/// Strips escapes and overstrikes from the characters that it is fed, and keeps
/// track of the faces of what is left.
pub struct Filter {
    current_face: Face,
    /// The face of the run that is being printed.
    previous_face: Face,
    /// Where the next character goes.
    cur: Coord,
    /// The last byte printed.
    prev_end: Coord,
    /// Where the run that is being printed started.
    face_start: Coord,
    g1: bool,
    esc: Esc,
    os_backspace_pending: bool,
    os_char_pending: bool,
    os_want_attr_reset: bool,
    os_saved_attrs: u16,
    os_last: Option<char>,
    out: String,
    ranges: String,
    start: Ghost<Pos>,
    printed: Ghost<Seq<Cell>>,
}

impl Filter {
    /// The state of the filter.
    pub closed spec fn view(&self) -> State {
        State {
            start: self.start@,
            printed: self.printed@,
            face: self.current_face,
            line_drawing: self.g1,
            escape: self.esc.view(),
            overstrike: Overstrike {
                backspace: self.os_backspace_pending,
                struck: self.os_char_pending,
                styled: self.os_want_attr_reset,
                saved: self.os_saved_attrs,
                held: self.os_last,
            },
        }
    }

    /// What every filter keeps to.
    pub closed spec fn inv(&self) -> bool {
        &&& self.current_face.wf()
        &&& self.previous_face.wf()
        &&& self.esc.inv()
        &&& self@.fits()
        &&& self.out@ == self@.text()
        &&& self.cur.pos() == cursor(self.start@, self.out@)
        &&& self.run_inv()
    }

    /// The run that is being printed is the last one, and the others have their
    /// range-specs.
    spec fn run_inv(&self) -> bool {
        let runs = runs_of(self.printed@);
        if self.printed@.len() == 0 {
            &&& self.previous_face == Face::plain()
            &&& self.face_start.pos() == self.start@
            &&& self.prev_end.pos() == (Pos {
                line: self.start@.line,
                column: self.start@.column - 1,
            })
            &&& self.ranges@.len() == 0
        } else {
            &&& self.previous_face == runs.last().face
            &&& self.face_start.pos() == position(self.start@, self.out@, runs.last().from)
            &&& self.prev_end.pos() == position(
                self.start@,
                self.out@,
                self.out@.len() - 1,
            ).last_byte(self.out@.last())
            &&& self.ranges@ == range_specs(self.start@, self.out@, runs.drop_last())
        }
    }

    /// `self` has printed what `other` has, and stands at the same place.
    spec fn same_output(&self, other: Filter) -> bool {
        &&& self.previous_face == other.previous_face
        &&& self.cur == other.cur
        &&& self.prev_end == other.prev_end
        &&& self.face_start == other.face_start
        &&& self.out == other.out
        &&& self.ranges == other.ranges
    }

    /// A filter whose first character goes to `start`.
    pub fn new(start: Coord) -> (f: Filter)
        requires
            start.column > i32::MIN,
        ensures
            f.inv(),
            f@ == State::initial(start.pos()),
    {
        let f = Filter {
            current_face: Face::default(),
            previous_face: Face::default(),
            cur: start,
            prev_end: Coord { line: start.line, column: start.column - 1 },
            face_start: start,
            g1: false,
            esc: Esc::Ground,
            os_backspace_pending: false,
            os_char_pending: false,
            os_want_attr_reset: false,
            os_saved_attrs: 0,
            os_last: None,
            out: String::new(),
            ranges: String::new(),
            start: Ghost(start.pos()),
            printed: Ghost(Seq::empty()),
        };
        assert(f.out@ =~= f@.text());
        f
    }

    fn overstrike(&mut self, ch: char) -> (released: Option<char>)
        requires
            old(self).inv(),
        ensures
            final(self).inv(),
            (final(self)@, released) == old(self)@.overstrike(ch),
            final(self).same_output(*old(self)),
    {
        if self.os_backspace_pending {
            if !self.os_want_attr_reset {
                self.os_want_attr_reset = true;
                self.os_saved_attrs = self.current_face.attrs;
            }
            if self.os_last == Some(ch) {
                self.current_face.attrs = self.current_face.attrs | BOLD;
            }
            if ch == '_' || self.os_last == Some('_') {
                self.current_face.attrs = self.current_face.attrs | UNDERLINE;
            }
            self.os_char_pending = true;
            if ch != '_' {
                self.os_last = Some(ch);
            }
            self.os_backspace_pending = false;
            None
        } else if ch == BACKSPACE {
            self.os_backspace_pending = true;
            None
        } else {
            if self.os_char_pending {
                self.os_char_pending = false;
            } else if self.os_want_attr_reset {
                self.os_want_attr_reset = false;
                self.current_face.attrs = self.os_saved_attrs;
            }
            let released = self.os_last;
            self.os_last = Some(ch);
            released
        }
    }

    /// The stage `escape` outside of a sequence.
    fn ground(&mut self, ch: char) -> (passed: Option<char>)
        requires
            old(self).inv(),
        ensures
            final(self).inv(),
            (final(self)@, passed) == old(self)@.ground(ch),
            final(self).same_output(*old(self)),
    {
        self.esc = Esc::Ground;
        if ch == '\r' {
            None
        } else if ch == SO {
            self.g1 = true;
            None
        } else if ch == SI {
            self.g1 = false;
            None
        } else if ch == ESC {
            self.esc = Esc::Esc;
            None
        } else {
            Some(ch)
        }
    }

    fn escape(&mut self, ch: char) -> (passed: Option<char>)
        requires
            old(self).inv(),
        ensures
            final(self).inv(),
            (final(self)@, passed) == old(self)@.escape(ch),
            final(self).same_output(*old(self)),
    {
        match &mut self.esc {
            Esc::Ground => self.ground(ch),
            Esc::Esc => match ch {
                '[' => {
                    self.esc = Esc::Csi { params: String::new(), len: 0 };
                    None
                },
                ']' => {
                    self.esc = Esc::Osc { prev: ']' };
                    None
                },
                '(' => {
                    self.esc = Esc::Charset;
                    None
                },
                // A lone ESC goes away, and what follows it is taken as if it
                // stood alone: `ESC ESC [` still starts a sequence.
                _ => self.ground(ch),
            },
            Esc::Csi { params, len } => {
                if (*len == 0 && ch == '?') || ch == ';' || ch == ':' || is_ascii_digit(ch) {
                    if *len < CSI_PARAM_CAP {
                        params.push(ch);
                        *len += 1;
                    }
                    return None;
                }
                if ch == 'm' && *len < CSI_PARAM_CAP {
                    let codes = parse_codes(params.as_str());
                    proof {
                        lemma_after_codes_wf(self.current_face, codes@);
                    }
                    self.current_face.apply_sgr(codes.as_slice());
                }
                self.esc = Esc::Ground;
                None
            },
            Esc::Osc { prev } => {
                if ch == BEL || (ch == '\\' && *prev == ESC) {
                    self.esc = Esc::Ground;
                } else {
                    *prev = ch;
                }
                None
            },
            Esc::Charset => {
                match ch {
                    '0' => self.g1 = true,
                    'B' => self.g1 = false,
                    _ => {},
                }
                self.esc = Esc::Ground;
                None
            },
        }
    }

    fn translate(&self, ch: char) -> (t: char)
        ensures
            t == self@.translate(ch),
    {
        if !self.g1 {
            return ch;
        }
        match ch {
            'j' => '┘',
            'k' => '┐',
            'l' => '┌',
            'm' => '└',
            'n' => '┼',
            'q' => '─',
            't' => '├',
            'u' => '┤',
            'v' => '┴',
            'w' => '┬',
            'x' => '│',
            _ => ch,
        }
    }

    /// Appends the range-spec of `face_start..=prev_end`, unless the face is the
    /// plain one or nothing was printed since `face_start`.
    fn emit_face(&mut self, face: Face)
        requires
            face.wf(),
        ensures
            *final(self) == (Filter { ranges: final(self).ranges, ..*old(self) }),
            final(self).ranges@ == old(self).ranges@ + (if face != Face::plain()
                && old(self).face_start != old(self).cur {
                seq![' '] + old(self).face_start.pos().text() + seq![',']
                    + old(self).prev_end.pos().text() + seq!['|'] + face.text()
            } else {
                seq![]
            }),
    {
        let ghost before = self.ranges@;
        if face == Face::default() || self.face_start == self.cur {
            assert(self.ranges@ =~= before + seq![]);
            return;
        }
        self.ranges.push(' ');
        self.face_start.push_to(&mut self.ranges);
        self.ranges.push(',');
        self.prev_end.push_to(&mut self.ranges);
        self.ranges.push('|');
        face.push_to(&mut self.ranges);
        assert(self.ranges@ =~= before + (seq![' '] + self.face_start.pos().text() + seq![',']
            + self.prev_end.pos().text() + seq!['|'] + face.text()));
    }

    /// Once the range-spec of the last run is written, the range-specs are those
    /// of all runs.
    proof fn lemma_last_run(&self)
        requires
            self.inv(),
        ensures
            self.printed@.len() > 0 ==> self.face_start != self.cur,
            self@.ranges() == self.ranges@ + (if self.previous_face != Face::plain()
                && self.face_start != self.cur {
                seq![' '] + self.face_start.pos().text() + seq![','] + self.prev_end.pos().text()
                    + seq!['|'] + self.previous_face.text()
            } else {
                seq![]
            }),
    {
        let n = self.printed@.len() as int;
        let runs = runs_of(self.printed@);
        law_runs_partition_by_face(self.printed@);
        if n > 0 {
            assert(runs.last() == runs[runs.len() - 1]);
            assert(self.out@.take(n) =~= self.out@);
            lemma_positions_increase(self.start@, self.out@, runs.last().from, n);
        } else {
            assert(self@.ranges() =~= self.ranges@);
        }
    }

    /// Whether `ch` can be printed without a coordinate that no `i32` holds.
    fn has_room(&self, ch: char) -> (r: bool)
        requires
            self.inv(),
        ensures
            r == self@.display(ch).fits(),
    {
        proof {
            lemma_fits_push(self.start@, self.out@, ch);
            assert(self@.display(ch).text() =~= self.out@.push(ch));
        }
        let bytes: i32 = width_of(ch);
        self.cur.column <= i32::MAX - bytes && (ch != '\n' || self.cur.line < i32::MAX)
    }

    fn display(&mut self, ch: char)
        requires
            old(self).inv(),
            old(self)@.display(ch).fits(),
        ensures
            final(self).inv(),
            final(self)@ == old(self)@.display(ch),
    {
        let ghost before = *self;
        let ghost cell = Cell { ch, face: self.current_face };
        let ghost n = self.printed@.len() as int;
        proof {
            lemma_fits_push(self.start@, self.out@, ch);
            assert(self@.display(ch).text() =~= self.out@.push(ch));
            self.lemma_last_run();
            law_runs_partition_by_face(self.printed@);
            assert(self.printed@.push(cell).drop_last() =~= self.printed@);
            assert(self.out@.push(ch).drop_last() =~= self.out@);
            assert(self.out@.push(ch).take(n) =~= self.out@);
        }
        self.out.push(ch);
        if self.previous_face != self.current_face {
            let face = self.previous_face;
            self.emit_face(face);
            self.face_start = self.cur;
            self.previous_face = self.current_face;
        }
        let bytes: i32 = width_of(ch);
        self.prev_end = Coord { line: self.cur.line, column: self.cur.column + bytes - 1 };
        if ch == '\n' {
            self.cur.line = self.cur.line + 1;
            self.cur.column = 1;
        } else {
            self.cur.column = self.cur.column + bytes;
        }
        self.printed = Ghost(self.printed@.push(cell));
        proof {
            let old_runs = runs_of(before.printed@);
            let runs = runs_of(self.printed@);
            lemma_range_specs_push(before.start@, before.out@, ch, old_runs);
            if n > 0 {
                assert(old_runs.last() == old_runs[old_runs.len() - 1]);
                lemma_range_specs_push(before.start@, before.out@, ch, old_runs.drop_last());
                lemma_position_push(before.start@, before.out@, ch, old_runs.last().from);
            }
            if before.previous_face == before.current_face {
                if n > 0 {
                    assert(runs.drop_last() =~= old_runs.drop_last());
                }
            } else {
                assert(runs.drop_last() =~= old_runs);
            }
        }
    }

    fn feed_past_overstrike(&mut self, ch: char)
        requires
            old(self).inv(),
            old(self)@.past_overstrike(ch).fits(),
        ensures
            final(self).inv(),
            final(self)@ == old(self)@.past_overstrike(ch),
    {
        if let Some(c) = self.escape(ch) {
            let t = self.translate(c);
            self.display(t);
        }
    }

    /// Reads one character.
    pub fn feed(&mut self, ch: char)
        requires
            old(self).inv(),
            old(self)@.feed(ch).fits(),
        ensures
            final(self).inv(),
            final(self)@ == old(self)@.feed(ch),
    {
        if let Some(c) = self.overstrike(ch) {
            self.feed_past_overstrike(c);
        }
    }

    /// Reads UTF-8 text; what is malformed in it is read as U+FFFD.
    pub fn feed_bytes(&mut self, bytes: &[u8])
        requires
            old(self).inv(),
            old(self)@.feed_all(decode_lossy(bytes@)).fits(),
        ensures
            final(self).inv(),
            final(self)@ == old(self)@.feed_all(decode_lossy(bytes@)),
    {
        let fitted = self.try_feed_bytes(bytes);
        assert(fitted);
    }

    /// The end of the input: the text that is left, and its range-specs.
    pub fn finish(self) -> (r: (String, String))
        requires
            self.inv(),
            self@.flush().fits(),
        ensures
            r.0@ == self@.flush().text(),
            r.1@ == self@.flush().ranges(),
    {
        let mut f = self;
        if let Some(ch) = f.os_last.take() {
            f.feed_past_overstrike(ch);
        }
        proof {
            f.lemma_last_run();
        }
        let face = f.previous_face;
        f.emit_face(face);
        (f.out, f.ranges)
    }

    /// Reads one character, or gives up where a coordinate would be too large.
    fn try_feed(&mut self, ch: char) -> (ok: bool)
        requires
            old(self).inv(),
        ensures
            final(self).inv(),
            ok == old(self)@.feed(ch).fits(),
            ok ==> final(self)@ == old(self)@.feed(ch),
    {
        match self.overstrike(ch) {
            Some(c) => self.try_feed_past_overstrike(c),
            None => true,
        }
    }

    fn try_feed_past_overstrike(&mut self, ch: char) -> (ok: bool)
        requires
            old(self).inv(),
        ensures
            final(self).inv(),
            ok == old(self)@.past_overstrike(ch).fits(),
            ok ==> final(self)@ == old(self)@.past_overstrike(ch),
    {
        if let Some(c) = self.escape(ch) {
            let t = self.translate(c);
            if !self.has_room(t) {
                return false;
            }
            self.display(t);
        }
        true
    }

    /// Reads UTF-8 text, or gives up where a coordinate would be too large.
    fn try_feed_bytes(&mut self, bytes: &[u8]) -> (ok: bool)
        requires
            old(self).inv(),
        ensures
            final(self).inv(),
            ok == old(self)@.feed_all(decode_lossy(bytes@)).fits(),
            ok ==> final(self)@ == old(self)@.feed_all(decode_lossy(bytes@)),
    {
        let ghost end = self@.feed_all(decode_lossy(bytes@));
        let mut i: usize = 0;
        assert(bytes@.skip(0) =~= bytes@);
        while i < bytes.len()
            invariant
                i <= bytes@.len(),
                self.inv(),
                self@.feed_all(decode_lossy(bytes@.skip(i as int))) == end,
                end == old(self)@.feed_all(decode_lossy(bytes@)),
            decreases bytes@.len() - i,
        {
            let (ch, n) = decode_next(bytes, i);
            proof {
                let rest = bytes@.skip(i as int);
                assert(rest.skip(n as int) =~= bytes@.skip(i + n));
                assert(decode_lossy(rest).skip(1) =~= decode_lossy(bytes@.skip(i + n)));
                lemma_feed_all_extends(self@.feed(ch), decode_lossy(rest).skip(1));
                if end.fits() {
                    lemma_fits_prefix(self@.feed(ch), end);
                }
            }
            if !self.try_feed(ch) {
                return false;
            }
            i += n;
        }
        true
    }

    /// Lets go of the held character, or gives up where a coordinate would be too
    /// large.
    fn try_flush(&mut self) -> (ok: bool)
        requires
            old(self).inv(),
        ensures
            final(self).inv(),
            ok == old(self)@.flush().fits(),
            ok ==> final(self)@ == old(self)@.flush(),
    {
        match self.os_last.take() {
            Some(ch) => self.try_feed_past_overstrike(ch),
            None => true,
        }
    }
}

/// Filters a whole input whose first character goes to `start`: the text that is
/// left and its range-specs, or `None` where the coordinates leave the `i32`s.
pub fn filter_bytes(start: Coord, input: &[u8]) -> (r: Option<(String, String)>)
    ensures
        ({
            let end = State::initial(start.pos()).feed_all(decode_lossy(input@)).flush();
            match r {
                Some((out, ranges)) => {
                    &&& start.column > i32::MIN
                    &&& end.fits()
                    &&& out@ == end.text()
                    &&& ranges@ == end.ranges()
                },
                None => start.column == i32::MIN || !end.fits(),
            }
        }),
{
    if start.column == i32::MIN {
        return None;
    }
    let mut f = Filter::new(start);
    proof {
        lemma_flush_extends(f@.feed_all(decode_lossy(input@)));
    }
    if f.try_feed_bytes(input) && f.try_flush() {
        Some(f.finish())
    } else {
        None
    }
}

} // verus!
