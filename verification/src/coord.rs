//! Buffer coordinates, and how text moves them.

use crate::text::{push_integer, signed_decimal};
use vstd::prelude::*;
use vstd::utf8::{encode_scalar, encode_utf8};

verus! {

/// A Kakoune buffer coordinate, counted from 1; the column counts bytes.
#[derive(Clone, Copy, PartialEq, Eq, PartialOrd, Ord, Debug, Structural)]
pub struct Coord {
    pub line: i32,
    pub column: i32,
}

/// A coordinate without bounds.
pub struct Pos {
    pub line: int,
    pub column: int,
}

impl Pos {
    /// `self` comes before `other`: in an earlier line, or further left in the
    /// same one.
    pub open spec fn before(self, other: Pos) -> bool {
        self.line < other.line || (self.line == other.line && self.column < other.column)
    }

    /// Where the next character goes after `ch` was printed here.
    pub open spec fn after(self, ch: char) -> Pos {
        if ch == '\n' {
            Pos { line: self.line + 1, column: 1 }
        } else {
            Pos { line: self.line, column: self.column + width(ch) }
        }
    }

    /// The last byte of `ch`, printed here.
    pub open spec fn last_byte(self, ch: char) -> Pos {
        Pos { line: self.line, column: self.column + width(ch) - 1 }
    }

    /// `ch` can be printed here without a coordinate that no `i32` holds.
    pub open spec fn has_room(self, ch: char) -> bool {
        &&& self.column + width(ch) <= i32::MAX
        &&& ch == '\n' ==> self.line < i32::MAX
    }

    /// `line.column`.
    pub open spec fn text(self) -> Seq<char> {
        signed_decimal(self.line) + seq!['.'] + signed_decimal(self.column)
    }
}

/// The number of bytes of `ch` in UTF-8.
pub open spec fn width(ch: char) -> int {
    encode_scalar(ch as u32).len() as int
}

/// The number of bytes of `ch` in UTF-8.
pub fn width_of(ch: char) -> (n: i32)
    ensures
        n == width(ch),
        1 <= n <= 4,
{
    let v: u32 = ch as u32;
    if v < 0x80 {
        1
    } else if v < 0x800 {
        2
    } else if v < 0x10000 {
        3
    } else {
        4
    }
}

impl Coord {
    /// The same coordinate, without bounds.
    pub open spec fn pos(self) -> Pos {
        Pos { line: self.line as int, column: self.column as int }
    }

    /// The coordinate that comes first.
    pub fn min(self, other: Coord) -> (first: Coord)
        ensures
            first == (if other.pos().before(self.pos()) {
                other
            } else {
                self
            }),
    {
        if other.line < self.line || (other.line == self.line && other.column < self.column) {
            other
        } else {
            self
        }
    }

    /// Appends `line.column`.
    pub fn push_to(self, s: &mut String)
        ensures
            final(s)@ == old(s)@ + self.pos().text(),
    {
        push_integer(s, self.line);
        s.push('.');
        push_integer(s, self.column);
        assert(s@ =~= old(s)@ + self.pos().text());
    }
}

/// Where the next character goes when `text` was printed from `start` on.
pub open spec fn cursor(start: Pos, text: Seq<char>) -> Pos
    decreases text.len(),
{
    if text.len() == 0 {
        start
    } else {
        cursor(start, text.drop_last()).after(text.last())
    }
}

/// Where character `i` of `text` goes when `text` is printed from `start` on.
pub open spec fn position(start: Pos, text: Seq<char>, i: int) -> Pos {
    cursor(start, text.take(i))
}

/// `text` can be printed from `start` on without a coordinate that no `i32`
/// holds.
pub open spec fn fits(start: Pos, text: Seq<char>) -> bool {
    forall|i: int|
        0 <= i < text.len() ==> (#[trigger] position(start, text, i)).has_room(text[i])
}

/// Text behind character `i` does not move it.
pub proof fn lemma_position_push(start: Pos, text: Seq<char>, ch: char, i: int)
    requires
        0 <= i <= text.len(),
    ensures
        position(start, text.push(ch), i) == position(start, text, i),
{
    assert(text.push(ch).take(i) =~= text.take(i));
}

/// One character more fits if there is room for it behind what fitted before.
pub proof fn lemma_fits_push(start: Pos, text: Seq<char>, ch: char)
    ensures
        fits(start, text.push(ch)) <==> fits(start, text) && cursor(start, text).has_room(ch),
{
    let more = text.push(ch);
    assert(more.take(text.len() as int) =~= text);
    assert(position(start, more, text.len() as int) == cursor(start, text));
    assert(more[text.len() as int] == ch);
    assert forall|i: int| 0 <= i < text.len() implies position(start, more, i) == position(
        start,
        text,
        i,
    ) && more[i] == text[i] by {
        lemma_position_push(start, text, ch, i);
    }
    if fits(start, more) {
        assert forall|i: int| 0 <= i < text.len() implies (#[trigger] position(
            start,
            text,
            i,
        )).has_room(text[i]) by {
            assert(position(start, more, i).has_room(more[i]));
        }
    }
}

/// Every character of a text comes before the ones behind it.
pub proof fn lemma_positions_increase(start: Pos, text: Seq<char>, i: int, j: int)
    requires
        0 <= i < j <= text.len(),
    ensures
        position(start, text, i).before(position(start, text, j)),
    decreases j - i,
{
    assert(text.take(j).drop_last() =~= text.take(j - 1));
    if i < j - 1 {
        lemma_positions_increase(start, text, i, j - 1);
    }
}

/// How many lines `text` ends.
pub open spec fn newlines(text: Seq<char>) -> int
    decreases text.len(),
{
    if text.len() == 0 {
        0
    } else {
        newlines(text.drop_last()) + (if text.last() == '\n' {
            1int
        } else {
            0
        })
    }
}

/// The text of a line has no newline in it.
pub open spec fn is_one_line(text: Seq<char>) -> bool {
    forall|i: int| 0 <= i < text.len() ==> #[trigger] text[i] != '\n'
}

proof fn lemma_encoded_len(text: Seq<char>)
    requires
        text.len() > 0,
    ensures
        encode_utf8(text).len() == encode_utf8(text.drop_last()).len() + width(text.last()),
    decreases text.len(),
{
    reveal_with_fuel(encode_utf8, 2);
    if text.len() > 1 {
        lemma_encoded_len(text.drop_first());
        assert(text.drop_first().drop_last() =~= text.drop_last().drop_first());
    } else {
        assert(text.drop_last() =~= Seq::<char>::empty());
        assert(text.drop_first() =~= Seq::<char>::empty());
    }
}

/// Columns count bytes: text within a line moves the cursor right by as many
/// columns as it has bytes in UTF-8.
pub proof fn law_cursor_in_line(start: Pos, text: Seq<char>)
    requires
        is_one_line(text),
    ensures
        cursor(start, text) == (Pos {
            line: start.line,
            column: start.column + encode_utf8(text).len(),
        }),
    decreases text.len(),
{
    if text.len() > 0 {
        assert(text.last() == text[text.len() - 1]);
        lemma_encoded_len(text);
        law_cursor_in_line(start, text.drop_last());
    }
}

/// The cursor behind more text is where that text would end if it started where
/// the earlier one ended.
pub proof fn law_cursor_concat(start: Pos, a: Seq<char>, b: Seq<char>)
    ensures
        cursor(start, a + b) == cursor(cursor(start, a), b),
    decreases b.len(),
{
    if b.len() == 0 {
        assert(a + b =~= a);
    } else {
        assert((a + b).drop_last() =~= a + b.drop_last());
        law_cursor_concat(start, a, b.drop_last());
    }
}

/// Every newline starts a line, and its first column is 1: behind text that ends
/// in the line `last`, the cursor stands as many lines further down as there are
/// newlines, behind the bytes of `last`.
pub proof fn law_cursor_in_lines(start: Pos, text: Seq<char>, last: Seq<char>)
    requires
        is_one_line(last),
    ensures
        cursor(start, text.push('\n') + last) == (Pos {
            line: start.line + newlines(text) + 1,
            column: 1 + encode_utf8(last).len() as int,
        }),
{
    let lines = text.push('\n');
    assert(lines.drop_last() =~= text);
    lemma_cursor_line(start, text);
    law_cursor_concat(start, lines, last);
    law_cursor_in_line(cursor(start, lines), last);
}

proof fn lemma_cursor_line(start: Pos, text: Seq<char>)
    ensures
        cursor(start, text).line == start.line + newlines(text),
    decreases text.len(),
{
    if text.len() > 0 {
        lemma_cursor_line(start, text.drop_last());
    }
}

/// The position `1.1`.
pub open spec fn origin() -> Pos {
    Pos { line: 1, column: 1 }
}

/// Where `p`, in a text that starts at `1.1`, goes if the text starts at `start`:
/// as many lines further down as the start does, and further right only in the
/// first line.
pub open spec fn moved(p: Pos, start: Pos) -> Pos {
    Pos {
        line: p.line + (start.line - 1),
        column: if p.line == 1 {
            p.column + (start.column - 1)
        } else {
            p.column
        },
    }
}

/// Another start moves every position of a text alike.
pub proof fn law_start_moves_cursor(start: Pos, text: Seq<char>)
    ensures
        cursor(start, text) == moved(cursor(origin(), text), start),
        cursor(origin(), text).line >= 1,
    decreases text.len(),
{
    if text.len() > 0 {
        law_start_moves_cursor(start, text.drop_last());
    }
}

/// Coordinates are ordered by line, and within a line by column; of two that differ
/// one comes before the other.
pub proof fn law_order_of_coordinates(p: Pos, q: Pos)
    ensures
        p.line < q.line ==> p.before(q) && !q.before(p),
        p.line == q.line && p.column < q.column ==> p.before(q) && !q.before(p),
        p.line == q.line && p.column == q.column ==> !p.before(q) && !q.before(p),
{
}

/// A character takes up one to four columns, by the size of its scalar value; a
/// newline leads to the first column of the next line.
pub proof fn law_cursor_moves(start: Pos, ch: char)
    ensures
        ({
            let to = cursor(start, seq![ch]);
            let v = ch as u32;
            let bytes = if v < 0x80 {
                1int
            } else if v < 0x800 {
                2
            } else if v < 0x10000 {
                3
            } else {
                4
            };
            if ch == '\n' {
                to.line == start.line + 1 && to.column == 1
            } else {
                to.line == start.line && to.column == start.column + bytes
            }
        }),
        cursor(start, seq![]) == start,
{
    reveal_with_fuel(cursor, 2);
    assert(seq![ch].drop_last() =~= Seq::<char>::empty());
}

/// A coordinate is written as its line, a dot and its column.
pub proof fn law_coordinate_text(p: Pos)
    ensures
        p.text() == signed_decimal(p.line) + seq!['.'] + signed_decimal(p.column),
{
}

/// Text within a line fits as long as the column behind it is one that an `i32`
/// holds, and a newline as long as there is such a column behind it and such a line
/// below it. Nothing always fits.
pub proof fn law_what_fits(start: Pos, text: Seq<char>)
    requires
        is_one_line(text),
    ensures
        text.len() > 0 ==> (fits(start, text) <==> start.column + encode_utf8(text).len()
            <= 2147483647),
        fits(start, seq!['\n']) <==> start.column < 2147483647 && start.line < 2147483647,
        fits(start, seq![]),
    decreases text.len(),
{
    let none = Seq::<char>::empty();
    lemma_fits_push(start, none, '\n');
    assert(none.push('\n') =~= seq!['\n']);
    assert(width('\n') == 1);
    if text.len() > 0 {
        let init = text.drop_last();
        let ch = text.last();
        assert(text[text.len() - 1] == ch);
        law_what_fits(start, init);
        assert(init.push(ch) =~= text);
        lemma_fits_push(start, init, ch);
        law_cursor_in_line(start, init);
        lemma_encoded_len(text);
        assert(1 <= width(ch));
    }
}

/// Two texts fit one behind the other if the first does and the second does from
/// where the first ends.
pub proof fn law_fits_concat(start: Pos, a: Seq<char>, b: Seq<char>)
    ensures
        fits(start, a + b) <==> fits(start, a) && fits(cursor(start, a), b),
    decreases b.len(),
{
    if b.len() == 0 {
        assert(a + b =~= a);
    } else {
        let init = b.drop_last();
        assert(init.push(b.last()) =~= b);
        assert((a + init).push(b.last()) =~= a + b);
        law_fits_concat(start, a, init);
        lemma_fits_push(start, a + init, b.last());
        lemma_fits_push(cursor(start, a), init, b.last());
        law_cursor_concat(start, a, init);
    }
}

} // verus!
