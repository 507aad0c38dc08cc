//! Printed text with its faces, cut into runs of one face, and the range-specs
//! that say so.

use crate::coord::{
    cursor, law_cursor_concat, lemma_position_push, lemma_positions_increase, position, width, Pos,
};
use crate::face::{
    attr_letters, lemma_color_text_chars, letter_if, Color, Face, BLINK, BOLD, DIM, ITALIC,
    REVERSE, STRIKE, UNDERLINE,
};
use crate::text::{lemma_signed_decimal_chars, signed_decimal};
use vstd::prelude::*;
use vstd::utf8::encode_utf8;

verus! {

/// A printed character and the face it was printed in.
pub struct Cell {
    pub ch: char,
    pub face: Face,
}

impl Cell {
    pub open spec fn of(ch: char, face: Face) -> Cell {
        Cell { ch, face }
    }
}

/// The characters of the cells.
pub open spec fn text_of(cells: Seq<Cell>) -> Seq<char> {
    cells.map_values(|c: Cell| c.ch)
}

/// The neighbouring cells `from..to`, all of one face.
pub struct Run {
    pub from: int,
    pub to: int,
    pub face: Face,
}

/// The cells as runs, each as long as it can be.
pub open spec fn runs_of(cells: Seq<Cell>) -> Seq<Run>
    decreases cells.len(),
{
    if cells.len() == 0 {
        seq![]
    } else {
        let runs = runs_of(cells.drop_last());
        let to = cells.len() as int;
        let face = cells.last().face;
        if runs.len() > 0 && runs.last().face == face {
            runs.drop_last().push(Run { to, ..runs.last() })
        } else {
            runs.push(Run { from: to - 1, to, face })
        }
    }
}

/// Where a run of `text`, which was printed from `start` on, starts.
pub open spec fn first_byte(start: Pos, text: Seq<char>, run: Run) -> Pos {
    position(start, text, run.from)
}

/// Where a run of `text`, which was printed from `start` on, ends.
pub open spec fn last_byte(start: Pos, text: Seq<char>, run: Run) -> Pos {
    position(start, text, run.to - 1).last_byte(text[run.to - 1])
}

/// The range-spec of a run of `text`, which was printed from `start` on: a
/// space, the first and the last byte of the run, and its face.
pub open spec fn range_spec(start: Pos, text: Seq<char>, run: Run) -> Seq<char> {
    seq![' '] + first_byte(start, text, run).text() + seq![','] + last_byte(
        start,
        text,
        run,
    ).text() + seq!['|'] + run.face.text()
}

/// The range-specs of the runs whose face is not the plain one.
pub open spec fn range_specs(start: Pos, text: Seq<char>, runs: Seq<Run>) -> Seq<char>
    decreases runs.len(),
{
    if runs.len() == 0 {
        seq![]
    } else {
        range_specs(start, text, runs.drop_last()) + (if runs.last().face != Face::plain() {
            range_spec(start, text, runs.last())
        } else {
            seq![]
        })
    }
}

/// The runs are non-empty, lie inside the cells, and follow each other without
/// a gap.
pub open spec fn is_partition(runs: Seq<Run>, len: int) -> bool {
    &&& runs.len() == 0 <==> len == 0
    &&& runs.len() > 0 ==> runs[0].from == 0 && runs.last().to == len
    &&& forall|i: int| 0 <= i < runs.len() ==> 0 <= (#[trigger] runs[i]).from < runs[i].to <= len
    &&& forall|i: int, j: int|
        0 <= i && j == i + 1 && j < runs.len() ==> (#[trigger] runs[i]).to == (
        #[trigger] runs[j]).from
}

/// The cells of a run have its face, and the run next to it has another one.
pub open spec fn is_by_face(runs: Seq<Run>, cells: Seq<Cell>) -> bool {
    &&& forall|i: int, k: int|
        0 <= i < runs.len() && runs[i].from <= k < runs[i].to ==> (#[trigger] cells[k]).face == (
        #[trigger] runs[i]).face
    &&& forall|i: int, j: int|
        0 <= i && j == i + 1 && j < runs.len() ==> (#[trigger] runs[i]).face != (
        #[trigger] runs[j]).face
}

/// The runs cut the cells up by face: every cell lies in one run, of its face,
/// and runs that touch differ in face.
pub proof fn law_runs_partition_by_face(cells: Seq<Cell>)
    ensures
        is_partition(runs_of(cells), cells.len() as int),
        is_by_face(runs_of(cells), cells),
    decreases cells.len(),
{
    if cells.len() > 0 {
        let init = cells.drop_last();
        let old_runs = runs_of(init);
        let runs = runs_of(cells);
        law_runs_partition_by_face(init);
        assert forall|i: int, k: int|
            0 <= i < runs.len() && runs[i].from <= k < runs[i].to implies (
        #[trigger] cells[k]).face == (#[trigger] runs[i]).face by {
            if k < init.len() {
                assert(init[k] == cells[k]);
                assert(i < old_runs.len());
                assert(old_runs[i].face == runs[i].face);
            }
        }
    }
}

/// What is printed later does not change the range-specs of earlier runs.
pub proof fn lemma_range_specs_push(start: Pos, text: Seq<char>, ch: char, runs: Seq<Run>)
    requires
        forall|i: int|
            0 <= i < runs.len() ==> 0 <= (#[trigger] runs[i]).from < runs[i].to <= text.len(),
    ensures
        range_specs(start, text.push(ch), runs) == range_specs(start, text, runs),
    decreases runs.len(),
{
    if runs.len() > 0 {
        let run = runs.last();
        assert(run == runs[runs.len() - 1]);
        assert forall|i: int| 0 <= i < runs.drop_last().len() implies 0 <= (
        #[trigger] runs.drop_last()[i]).from < runs.drop_last()[i].to <= text.len() by {
            assert(runs.drop_last()[i] == runs[i]);
        }
        lemma_range_specs_push(start, text, ch, runs.drop_last());
        lemma_position_push(start, text, ch, run.from);
        lemma_position_push(start, text, ch, run.to - 1);
    }
}

/// Ranges stay inside of the printed text and do not overlap: none starts before
/// `start` or ends behind the text, none ends before it starts, and each lies
/// before the ones of later runs.
pub proof fn law_ranges_are_in_order(start: Pos, cells: Seq<Cell>, i: int, j: int)
    requires
        0 <= i < runs_of(cells).len(),
        0 <= j < runs_of(cells).len(),
    ensures
        ({
            let text = text_of(cells);
            let a = runs_of(cells)[i];
            let b = runs_of(cells)[j];
            &&& !first_byte(start, text, a).before(start)
            &&& !last_byte(start, text, a).before(first_byte(start, text, a))
            &&& last_byte(start, text, a).before(cursor(start, text))
            &&& i < j ==> last_byte(start, text, a).before(first_byte(start, text, b))
        }),
{
    let text = text_of(cells);
    let runs = runs_of(cells);
    let a = runs[i];
    law_runs_partition_by_face(cells);
    assert(text.take(0) =~= Seq::<char>::empty());
    assert(text.take(text.len() as int) =~= text);
    if a.from > 0 {
        lemma_positions_increase(start, text, 0, a.from);
    }
    if a.from < a.to - 1 {
        lemma_positions_increase(start, text, a.from, a.to - 1);
    }
    assert(text.take(a.to).drop_last() =~= text.take(a.to - 1));
    assert(last_byte(start, text, a).before(position(start, text, a.to)));
    if a.to < text.len() {
        lemma_positions_increase(start, text, a.to, text.len() as int);
    }
    if i < j {
        lemma_runs_apart(runs, text.len() as int, i, j);
        let b = runs[j];
        if a.to < b.from {
            lemma_positions_increase(start, text, a.to, b.from);
        }
    }
}

proof fn lemma_runs_apart(runs: Seq<Run>, len: int, i: int, j: int)
    requires
        is_partition(runs, len),
        0 <= i < j < runs.len(),
    ensures
        runs[i].to <= runs[j].from,
    decreases j - i,
{
    if i + 1 < j {
        lemma_runs_apart(runs, len, i, j - 1);
        assert(runs[j - 1].to == runs[j].from);
    }
}

/// Text in the plain face alone has no range-specs.
pub proof fn law_plain_text_has_no_ranges(start: Pos, cells: Seq<Cell>)
    requires
        forall|k: int| 0 <= k < cells.len() ==> (#[trigger] cells[k]).face == Face::plain(),
    ensures
        range_specs(start, text_of(cells), runs_of(cells)) == Seq::<char>::empty(),
{
    let runs = runs_of(cells);
    law_runs_partition_by_face(cells);
    assert forall|i: int| 0 <= i < runs.len() implies (#[trigger] runs[i]).face
        == Face::plain() by {
        assert(cells[runs[i].from].face == runs[i].face);
    }
    lemma_plain_runs(start, text_of(cells), runs);
}

proof fn lemma_plain_runs(start: Pos, text: Seq<char>, runs: Seq<Run>)
    requires
        forall|i: int| 0 <= i < runs.len() ==> (#[trigger] runs[i]).face == Face::plain(),
    ensures
        range_specs(start, text, runs) == Seq::<char>::empty(),
    decreases runs.len(),
{
    if runs.len() > 0 {
        assert(runs.last() == runs[runs.len() - 1]);
        assert forall|i: int| 0 <= i < runs.drop_last().len() implies (
        #[trigger] runs.drop_last()[i]).face == Face::plain() by {
            assert(runs.drop_last()[i] == runs[i]);
        }
        lemma_plain_runs(start, text, runs.drop_last());
    }
}

/// No character of `s` is a space or a newline.
pub open spec fn is_word(s: Seq<char>) -> bool {
    forall|i: int| 0 <= i < s.len() ==> #[trigger] s[i] != ' ' && s[i] != '\n'
}

proof fn lemma_word_concat(a: Seq<char>, b: Seq<char>)
    requires
        is_word(a),
        is_word(b),
    ensures
        is_word(a + b),
{
}

proof fn lemma_face_text_is_word(face: Face)
    requires
        face.wf(),
    ensures
        is_word(face.text()),
{
    reveal_strlit(",");
    reveal_strlit("+");
    lemma_color_text_chars(face.fg);
    lemma_color_text_chars(face.bg);
    let bg = if face.bg != Color::Default {
        ","@ + face.bg.text()
    } else {
        seq![]
    };
    let attrs = if face.attrs != 0 {
        "+"@ + attr_letters(face.attrs)
    } else {
        seq![]
    };
    lemma_letters_are_word(face.attrs);
    lemma_word_concat(","@, face.bg.text());
    lemma_word_concat("+"@, attr_letters(face.attrs));
    lemma_word_concat(face.fg.text(), bg);
    lemma_word_concat(face.fg.text() + bg, attrs);
}

proof fn lemma_letters_are_word(attrs: u16)
    ensures
        is_word(attr_letters(attrs)),
{
    let u = letter_if(attrs, UNDERLINE, 'u');
    let r = u + letter_if(attrs, REVERSE, 'r');
    let b = r + letter_if(attrs, BOLD, 'b');
    let k = b + letter_if(attrs, BLINK, 'B');
    let d = k + letter_if(attrs, DIM, 'd');
    let i = d + letter_if(attrs, ITALIC, 'i');
    lemma_word_concat(u, letter_if(attrs, REVERSE, 'r'));
    lemma_word_concat(r, letter_if(attrs, BOLD, 'b'));
    lemma_word_concat(b, letter_if(attrs, BLINK, 'B'));
    lemma_word_concat(k, letter_if(attrs, DIM, 'd'));
    lemma_word_concat(d, letter_if(attrs, ITALIC, 'i'));
    lemma_word_concat(i, letter_if(attrs, STRIKE, 's'));
}

proof fn lemma_pos_is_word(p: Pos)
    ensures
        is_word(p.text()),
{
    lemma_signed_decimal_chars(p.line);
    lemma_signed_decimal_chars(p.column);
    lemma_word_concat(signed_decimal(p.line), seq!['.']);
    lemma_word_concat(signed_decimal(p.line) + seq!['.'], signed_decimal(p.column));
}

/// The range-spec of a run is a space and one word.
pub proof fn law_range_spec_is_one_word(start: Pos, text: Seq<char>, run: Run)
    requires
        run.face.wf(),
    ensures
        range_spec(start, text, run)[0] == ' ',
        is_word(range_spec(start, text, run).skip(1)),
{
    let first = first_byte(start, text, run).text();
    let last = last_byte(start, text, run).text();
    lemma_pos_is_word(first_byte(start, text, run));
    lemma_pos_is_word(last_byte(start, text, run));
    lemma_face_text_is_word(run.face);
    lemma_word_concat(first, seq![',']);
    lemma_word_concat(first + seq![','], last);
    lemma_word_concat(first + seq![','] + last, seq!['|']);
    lemma_word_concat(first + seq![','] + last + seq!['|'], run.face.text());
    assert(range_spec(start, text, run).skip(1) =~= first + seq![','] + last + seq!['|']
        + run.face.text());
}

impl Run {
    /// The same run behind `by` more cells.
    pub open spec fn later(self, by: int) -> Run {
        Run { from: self.from + by, to: self.to + by, face: self.face }
    }
}

/// The same runs behind `by` more cells.
pub open spec fn all_later(runs: Seq<Run>, by: int) -> Seq<Run> {
    runs.map_values(|r: Run| r.later(by))
}

proof fn lemma_runs_concat(a: Seq<Cell>, b: Seq<Cell>)
    requires
        a.len() > 0,
        b.len() > 0,
        a.last().face != b[0].face,
    ensures
        runs_of(a + b) == runs_of(a) + all_later(runs_of(b), a.len() as int),
    decreases b.len(),
{
    let n = a.len() as int;
    let init = b.drop_last();
    assert((a + b).drop_last() =~= a + init);
    law_runs_partition_by_face(a);
    law_runs_partition_by_face(init);
    let runs = runs_of(a);
    assert(a[a.len() - 1].face == runs[runs.len() - 1].face);
    if init.len() == 0 {
        assert(a + init =~= a);
        assert(runs_of(b) =~= seq![Run { from: 0, to: 1, face: b[0].face }]);
        assert(runs_of(a + b) =~= runs + all_later(runs_of(b), n));
    } else {
        assert(init[0] == b[0]);
        lemma_runs_concat(a, init);
        let old_runs = runs_of(init);
        assert((runs + all_later(old_runs, n)).last() == old_runs.last().later(n));
        assert(runs_of(a + b) =~= runs + all_later(runs_of(b), n));
    }
}

proof fn lemma_specs_concat(start: Pos, text: Seq<char>, a: Seq<Run>, b: Seq<Run>)
    ensures
        range_specs(start, text, a + b) == range_specs(start, text, a) + range_specs(
            start,
            text,
            b,
        ),
    decreases b.len(),
{
    if b.len() == 0 {
        assert(a + b =~= a);
        assert(range_specs(start, text, a) + range_specs(start, text, b) =~= range_specs(
            start,
            text,
            a,
        ));
    } else {
        assert((a + b).drop_last() =~= a + b.drop_last());
        lemma_specs_concat(start, text, a, b.drop_last());
        assert(range_specs(start, text, a + b) =~= range_specs(start, text, a) + range_specs(
            start,
            text,
            b,
        ));
    }
}

proof fn lemma_specs_before(start: Pos, a: Seq<char>, b: Seq<char>, runs: Seq<Run>)
    requires
        forall|i: int|
            0 <= i < runs.len() ==> 0 <= (#[trigger] runs[i]).from < runs[i].to <= a.len(),
    ensures
        range_specs(start, a + b, runs) == range_specs(start, a, runs),
    decreases b.len(),
{
    if b.len() == 0 {
        assert(a + b =~= a);
    } else {
        assert(a + b =~= (a + b.drop_last()).push(b.last()));
        lemma_specs_before(start, a, b.drop_last(), runs);
        lemma_range_specs_push(start, a + b.drop_last(), b.last(), runs);
    }
}

proof fn lemma_specs_behind(start: Pos, a: Seq<char>, b: Seq<char>, runs: Seq<Run>)
    requires
        forall|i: int|
            0 <= i < runs.len() ==> 0 <= (#[trigger] runs[i]).from < runs[i].to <= b.len(),
    ensures
        range_specs(start, a + b, all_later(runs, a.len() as int)) == range_specs(
            cursor(start, a),
            b,
            runs,
        ),
    decreases runs.len(),
{
    if runs.len() > 0 {
        let n = a.len() as int;
        let init = runs.drop_last();
        let run = runs.last();
        assert(run == runs[runs.len() - 1]);
        assert(all_later(runs, n).drop_last() =~= all_later(init, n));
        assert forall|i: int| 0 <= i < init.len() implies 0 <= (#[trigger] init[i]).from
            < init[i].to <= b.len() by {
            assert(init[i] == runs[i]);
        }
        lemma_specs_behind(start, a, b, init);
        assert((a + b).take(run.from + n) =~= a + b.take(run.from));
        assert((a + b).take(run.to - 1 + n) =~= a + b.take(run.to - 1));
        law_cursor_concat(start, a, b.take(run.from));
        law_cursor_concat(start, a, b.take(run.to - 1));
        assert((a + b)[run.to - 1 + n] == b[run.to - 1]);
        assert(range_spec(start, a + b, run.later(n)) == range_spec(cursor(start, a), b, run));
    }
}

/// Where the face changes, the text can be cut in two: the range-specs of the whole
/// are those of the first part, and then those of the second as if it had been
/// printed alone from where the first ended.
pub proof fn law_ranges_split_at_face(start: Pos, a: Seq<Cell>, b: Seq<Cell>)
    requires
        a.len() > 0,
        b.len() > 0,
        a.last().face != b[0].face,
    ensures
        range_specs(start, text_of(a + b), runs_of(a + b)) == range_specs(
            start,
            text_of(a),
            runs_of(a),
        ) + range_specs(cursor(start, text_of(a)), text_of(b), runs_of(b)),
{
    let n = a.len() as int;
    assert(text_of(a + b) =~= text_of(a) + text_of(b));
    lemma_runs_concat(a, b);
    law_runs_partition_by_face(a);
    law_runs_partition_by_face(b);
    lemma_specs_concat(start, text_of(a + b), runs_of(a), all_later(runs_of(b), n));
    lemma_specs_before(start, text_of(a), text_of(b), runs_of(a));
    lemma_specs_behind(start, text_of(a), text_of(b), runs_of(b));
}

proof fn lemma_one_run(cells: Seq<Cell>, face: Face)
    requires
        cells.len() > 0,
        forall|k: int| 0 <= k < cells.len() ==> (#[trigger] cells[k]).face == face,
    ensures
        runs_of(cells) == seq![Run { from: 0, to: cells.len() as int, face }],
    decreases cells.len(),
{
    let init = cells.drop_last();
    assert(cells[cells.len() - 1].face == face);
    if init.len() > 0 {
        assert forall|k: int| 0 <= k < init.len() implies (#[trigger] init[k]).face == face by {
            assert(init[k] == cells[k]);
        }
        lemma_one_run(init, face);
    } else {
        assert(runs_of(init) =~= Seq::<Run>::empty());
    }
    assert(runs_of(cells) =~= seq![Run { from: 0, to: cells.len() as int, face }]);
}

/// Text in one face has one range-spec, unless the face is the one with default
/// colours and without attributes, which has none: a space, the line and column of
/// its first byte, a comma, those of its last byte, a bar, and the face.
pub proof fn law_range_of_one_face(start: Pos, cells: Seq<Cell>, face: Face)
    requires
        cells.len() > 0,
        forall|k: int| 0 <= k < cells.len() ==> (#[trigger] cells[k]).face == face,
    ensures
        ({
            let text = text_of(cells);
            let specs = range_specs(start, text, runs_of(cells));
            let last = cursor(start, text.drop_last());
            let bytes = encode_utf8(seq![text.last()]).len();
            if face.fg == Color::Default && face.bg == Color::Default && face.attrs == 0 {
                specs == Seq::<char>::empty()
            } else {
                specs == seq![' '] + signed_decimal(start.line) + seq!['.'] + signed_decimal(
                    start.column,
                ) + seq![','] + signed_decimal(last.line) + seq!['.'] + signed_decimal(
                    last.column + bytes - 1,
                ) + seq!['|'] + face.text()
            }
        }),
{
    let text = text_of(cells);
    let run = Run { from: 0, to: cells.len() as int, face };
    lemma_one_run(cells, face);
    reveal_with_fuel(range_specs, 2);
    assert(seq![run].drop_last() =~= Seq::<Run>::empty());
    assert(text.take(0) =~= Seq::<char>::empty());
    assert(text.take(run.to - 1) =~= text.drop_last());
    lemma_encoded_char(text.last());
    if face == Face::plain() {
        assert(range_specs(start, text, seq![run]) =~= Seq::<char>::empty());
    } else {
        assert(range_specs(start, text, seq![run]) =~= range_spec(start, text, run));
        let last = last_byte(start, text, run);
        assert(range_spec(start, text, run) =~= seq![' '] + signed_decimal(start.line) + seq!['.']
            + signed_decimal(start.column) + seq![','] + signed_decimal(last.line) + seq!['.']
            + signed_decimal(last.column) + seq!['|'] + face.text());
    }
}

proof fn lemma_encoded_char(ch: char)
    ensures
        encode_utf8(seq![ch]).len() == width(ch),
{
    reveal_with_fuel(encode_utf8, 2);
    assert(seq![ch].drop_first() =~= Seq::<char>::empty());
}

/// The text of cells is made of their characters, in order.
pub proof fn law_text_of_cells(cells: Seq<Cell>, i: int)
    ensures
        text_of(cells).len() == cells.len(),
        0 <= i < cells.len() ==> text_of(cells)[i] == cells[i].ch,
{
}

} // verus!
