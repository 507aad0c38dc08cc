//! The command line: `-range L.C,L.C` says where the text stands in its buffer.

use crate::coord::Coord;
use crate::text::{
    chars_of, integer_of, law_integer_round_trip, law_integer_shape, lemma_signed_decimal_chars,
    parse_integer, signed_decimal,
};
use vstd::prelude::*;

verus! {

/// How many characters of `s` come before the first `sep`; all, if there is none.
pub open spec fn find(s: Seq<char>, sep: char) -> int
    decreases s.len(),
{
    if s.len() == 0 || s[0] == sep {
        0
    } else {
        1 + find(s.skip(1), sep)
    }
}

/// What stands before and after the first `sep` in `s`.
pub open spec fn split_once(s: Seq<char>, sep: char) -> Option<(Seq<char>, Seq<char>)> {
    let n = find(s, sep);
    if n < s.len() {
        Some((s.take(n), s.skip(n + 1)))
    } else {
        None
    }
}

/// The coordinate that `s` spells as `line.column`.
pub open spec fn coord_of(s: Seq<char>) -> Option<Coord> {
    match split_once(s, '.') {
        Some((l, c)) => match (integer_of(l), integer_of(c)) {
            (Some(line), Some(column)) => Some(Coord { line, column }),
            _ => None,
        },
        None => None,
    }
}

/// The two coordinates that `s` spells as `L.C,L.C`.
pub open spec fn range_of(s: Seq<char>) -> Option<(Coord, Coord)> {
    match split_once(s, ',') {
        Some((a, b)) => match (coord_of(a), coord_of(b)) {
            (Some(first), Some(second)) => Some((first, second)),
            _ => None,
        },
        None => None,
    }
}

/// The first place of `sep` in a text is the one with none before it.
proof fn lemma_find(s: Seq<char>, sep: char, n: int)
    requires
        0 <= n <= s.len(),
        forall|k: int| 0 <= k < n ==> #[trigger] s[k] != sep,
        n < s.len() ==> s[n] == sep,
    ensures
        find(s, sep) == n,
    decreases n,
{
    if n > 0 {
        assert(s[0] != sep);
        assert forall|k: int| 0 <= k < n - 1 implies #[trigger] s.skip(1)[k] != sep by {
            assert(s.skip(1)[k] == s[k + 1]);
        }
        lemma_find(s.skip(1), sep, n - 1);
    }
}

/// The place of the first `sep` in `chars[from..to]`, or `to`.
fn find_char(chars: &Vec<char>, from: usize, to: usize, sep: char) -> (i: usize)
    requires
        from <= to <= chars@.len(),
    ensures
        from <= i <= to,
        i - from == find(chars@.subrange(from as int, to as int), sep),
{
    let ghost s = chars@.subrange(from as int, to as int);
    let mut i: usize = from;
    while i < to && chars[i] != sep
        invariant
            from <= i <= to <= chars@.len(),
            s == chars@.subrange(from as int, to as int),
            forall|k: int| 0 <= k < i - from ==> #[trigger] s[k] != sep,
        ensures
            i < to ==> s[i - from] == sep,
        decreases to - i,
    {
        assert(s[i - from] == chars@[i as int]);
        i += 1;
    }
    proof {
        lemma_find(s, sep, i - from);
    }
    i
}

/// Reads `chars[from..to]` as `line.column`.
fn parse_coord(chars: &Vec<char>, from: usize, to: usize) -> (r: Option<Coord>)
    requires
        from <= to <= chars@.len(),
    ensures
        r == coord_of(chars@.subrange(from as int, to as int)),
{
    let ghost s = chars@.subrange(from as int, to as int);
    let dot: usize = find_char(chars, from, to, '.');
    if dot == to {
        return None;
    }
    assert(s.take(dot - from) =~= chars@.subrange(from as int, dot as int));
    assert(s.skip(dot - from + 1) =~= chars@.subrange(dot + 1, to as int));
    match (parse_integer(chars, from, dot), parse_integer(chars, dot + 1, to)) {
        (Some(line), Some(column)) => Some(Coord { line, column }),
        _ => None,
    }
}

/// Reads `L.C,L.C`.
pub fn parse_range(s: &str) -> (r: Option<(Coord, Coord)>)
    ensures
        r == range_of(s@),
{
    let chars = chars_of(s);
    let end: usize = chars.len();
    assert(chars@.subrange(0, end as int) =~= s@);
    let comma: usize = find_char(&chars, 0, end, ',');
    if comma == end {
        return None;
    }
    assert(s@.take(comma as int) =~= chars@.subrange(0, comma as int));
    assert(s@.skip(comma + 1) =~= chars@.subrange(comma + 1, end as int));
    match (parse_coord(&chars, 0, comma), parse_coord(&chars, comma + 1, end)) {
        (Some(a), Some(b)) => Some((a, b)),
        _ => None,
    }
}

/// The arguments read so far.
pub struct ArgReader {
    /// Where the text starts.
    pub start: Coord,
    /// The argument before was `-range`, whose value comes next.
    pub range_next: bool,
}

impl ArgReader {
    /// No arguments read: the text starts at `1.1`.
    pub open spec fn initial() -> ArgReader {
        ArgReader { start: Coord { line: 1, column: 1 }, range_next: false }
    }

    /// With one more argument, or what is wrong with it. Of the two coordinates
    /// of a range the text starts at the one that comes first.
    pub open spec fn with(self, arg: Seq<char>) -> Result<ArgReader, Seq<char>> {
        if self.range_next {
            match range_of(arg) {
                Some((a, b)) => Ok(
                    ArgReader {
                        start: if b.pos().before(a.pos()) {
                            b
                        } else {
                            a
                        },
                        range_next: false,
                    },
                ),
                None => Err("invalid value for -range"@),
            }
        } else if arg == "-range"@ {
            Ok(ArgReader { range_next: true, ..self })
        } else {
            Err("invalid argument '"@ + arg + "'"@)
        }
    }

    /// With no more arguments: where the text starts, or what is missing.
    pub open spec fn at_end(self) -> Result<Coord, Seq<char>> {
        if self.range_next {
            Err("-range needs an argument"@)
        } else {
            Ok(self.start)
        }
    }

    /// Starts to read a command line.
    pub fn new() -> (r: ArgReader)
        ensures
            r == ArgReader::initial(),
    {
        ArgReader { start: Coord { line: 1, column: 1 }, range_next: false }
    }

    /// Reads one argument.
    pub fn read(self, arg: &str) -> (r: Result<ArgReader, String>)
        ensures
            match (r, self.with(arg@)) {
                (Ok(next), Ok(expected)) => next == expected,
                (Err(message), Err(expected)) => message@ == expected,
                _ => false,
            },
    {
        if self.range_next {
            match parse_range(arg) {
                Some((a, b)) => Ok(ArgReader { start: a.min(b), range_next: false }),
                None => Err("invalid value for -range".to_owned()),
            }
        } else if arg.to_owned() == "-range".to_owned() {
            Ok(ArgReader { range_next: true, ..self })
        } else {
            let mut message = "invalid argument '".to_owned();
            message.append(arg);
            message.append("'");
            Err(message)
        }
    }

    /// Ends the command line.
    pub fn finish(self) -> (r: Result<Coord, String>)
        ensures
            match (r, self.at_end()) {
                (Ok(start), Ok(expected)) => start == expected,
                (Err(message), Err(expected)) => message@ == expected,
                _ => false,
            },
    {
        if self.range_next {
            Err("-range needs an argument".to_owned())
        } else {
            Ok(self.start)
        }
    }
}

/// Where the text starts by the command line `args`, or what is wrong with the
/// first argument that is. A later `-range` takes the place of an earlier one.
pub open spec fn start_of(default: Coord, args: Seq<Seq<char>>) -> Result<Coord, Seq<char>>
    decreases args.len(),
{
    if args.len() == 0 {
        Ok(default)
    } else if args[0] != "-range"@ {
        Err("invalid argument '"@ + args[0] + "'"@)
    } else if args.len() == 1 {
        Err("-range needs an argument"@)
    } else {
        match range_of(args[1]) {
            Some((a, b)) => start_of(
                if b.pos().before(a.pos()) {
                    b
                } else {
                    a
                },
                args.skip(2),
            ),
            None => Err("invalid value for -range"@),
        }
    }
}

/// All arguments, one after the other, up to the first that is wrong.
pub open spec fn read_all(r: ArgReader, args: Seq<Seq<char>>) -> Result<Coord, Seq<char>>
    decreases args.len(),
{
    if args.len() == 0 {
        r.at_end()
    } else {
        match r.with(args[0]) {
            Ok(next) => read_all(next, args.skip(1)),
            Err(message) => Err(message),
        }
    }
}

/// Reading the arguments one by one gives what the command line says as a whole.
pub proof fn law_read_all(start: Coord, args: Seq<Seq<char>>)
    ensures
        read_all((ArgReader { start, range_next: false }), args) == start_of(start, args),
    decreases args.len(),
{
    if args.len() > 1 && args[0] == "-range"@ {
        if let Some((a, b)) = range_of(args[1]) {
            let next = if b.pos().before(a.pos()) {
                b
            } else {
                a
            };
            assert(args.skip(1).skip(1) =~= args.skip(2));
            assert(args.skip(1)[0] == args[1]);
            law_read_all(next, args.skip(2));
            reveal_with_fuel(read_all, 3);
        } else {
            assert(args.skip(1)[0] == args[1]);
            reveal_with_fuel(read_all, 3);
        }
    } else {
        reveal_with_fuel(read_all, 3);
    }
}

/// The order of the two coordinates of a range does not matter.
pub proof fn law_range_is_normalized(r: ArgReader, a: Seq<char>, b: Seq<char>)
    requires
        r.range_next,
        coord_of(a) is Some,
        coord_of(b) is Some,
    ensures
        r.with(a + seq![','] + b) == r.with(b + seq![','] + a),
{
    lemma_range_of_pair(a, b);
    lemma_range_of_pair(b, a);
}

/// A coordinate is spelled without a comma.
proof fn lemma_coord_has_no_comma(s: Seq<char>)
    requires
        coord_of(s) is Some,
    ensures
        forall|k: int| 0 <= k < s.len() ==> #[trigger] s[k] != ',',
{
    let n = find(s, '.');
    let l = s.take(n);
    let c = s.skip(n + 1);
    lemma_find_bounds(s, '.');
    lemma_integer_has_no_comma(l);
    lemma_integer_has_no_comma(c);
    assert forall|k: int| 0 <= k < s.len() implies #[trigger] s[k] != ',' by {
        if k < n {
            assert(s[k] == l[k]);
        } else if k > n {
            assert(s[k] == c[k - n - 1]);
        }
    }
}

proof fn lemma_find_bounds(s: Seq<char>, sep: char)
    ensures
        0 <= find(s, sep) <= s.len(),
        find(s, sep) < s.len() ==> s[find(s, sep)] == sep,
    decreases s.len(),
{
    if s.len() > 0 && s[0] != sep {
        lemma_find_bounds(s.skip(1), sep);
    }
}

proof fn lemma_integer_has_no_comma(s: Seq<char>)
    requires
        integer_of(s) is Some,
    ensures
        forall|k: int| 0 <= k < s.len() ==> #[trigger] s[k] != ',',
{
    assert forall|k: int| 0 <= k < s.len() implies #[trigger] s[k] != ',' by {
        if k > 0 && (s[0] == '-' || s[0] == '+') {
            assert(s[k] == s.skip(1)[k - 1]);
        }
    }
}

/// Two texts with `sep` between them split there, if the first has none.
proof fn lemma_split_pair(a: Seq<char>, sep: char, b: Seq<char>)
    requires
        forall|k: int| 0 <= k < a.len() ==> #[trigger] a[k] != sep,
    ensures
        split_once(a + seq![sep] + b, sep) == Some((a, b)),
{
    let s = a + seq![sep] + b;
    lemma_find(s, sep, a.len() as int);
    assert(s.take(a.len() as int) =~= a);
    assert(s.skip(a.len() as int + 1) =~= b);
}

proof fn lemma_range_of_pair(a: Seq<char>, b: Seq<char>)
    requires
        coord_of(a) is Some,
        coord_of(b) is Some,
    ensures
        range_of(a + seq![','] + b) == Some((coord_of(a)->0, coord_of(b)->0)),
{
    lemma_coord_has_no_comma(a);
    lemma_split_pair(a, ',', b);
}

/// Reading undoes writing: a range is read back as the coordinates it is made of.
pub proof fn law_range_round_trip(a: Coord, b: Coord)
    ensures
        range_of(a.pos().text() + seq![','] + b.pos().text()) == Some((a, b)),
{
    lemma_coord_round_trip(a);
    lemma_coord_round_trip(b);
    lemma_split_pair(a.pos().text(), ',', b.pos().text());
}

proof fn lemma_coord_round_trip(c: Coord)
    ensures
        coord_of(c.pos().text()) == Some(c),
        forall|k: int| 0 <= k < c.pos().text().len() ==> #[trigger] c.pos().text()[k] != ',',
{
    let line = signed_decimal(c.line as int);
    let column = signed_decimal(c.column as int);
    lemma_signed_decimal_chars(c.line as int);
    lemma_signed_decimal_chars(c.column as int);
    law_integer_round_trip(c.line);
    law_integer_round_trip(c.column);
    assert(c.pos().text() =~= line + seq!['.'] + column);
    lemma_split_pair(line, '.', column);
}

/// The value of `-range` is two coordinates with a comma between them, and a
/// coordinate is two integers with a dot between them. Whatever is made like this is
/// read as these coordinates, in this order.
pub proof fn law_range_of_parts(l: Seq<char>, c: Seq<char>, m: Seq<char>, d: Seq<char>)
    requires
        integer_of(l) is Some,
        integer_of(c) is Some,
        integer_of(m) is Some,
        integer_of(d) is Some,
    ensures
        ({
            let value = l + seq!['.'] + c + seq![','] + m + seq!['.'] + d;
            range_of(value) == Some(
                (
                    Coord { line: integer_of(l)->0, column: integer_of(c)->0 },
                    Coord { line: integer_of(m)->0, column: integer_of(d)->0 },
                ),
            )
        }),
{
    let a = l + seq!['.'] + c;
    let b = m + seq!['.'] + d;
    let value = l + seq!['.'] + c + seq![','] + m + seq!['.'] + d;
    assert(value =~= a + seq![','] + b);
    law_integer_shape(l);
    law_integer_shape(m);
    lemma_split_pair(l, '.', c);
    lemma_split_pair(m, '.', d);
    lemma_range_of_pair(a, b);
}

/// Nothing else is read as a range: what is read is made of four integers, a dot, a
/// comma and another dot.
pub proof fn law_range_has_parts(value: Seq<char>)
    requires
        range_of(value) is Some,
    ensures
        exists|l: Seq<char>, c: Seq<char>, m: Seq<char>, d: Seq<char>|
            {
                &&& #[trigger] integer_of(l) is Some && #[trigger] integer_of(c) is Some
                &&& #[trigger] integer_of(m) is Some && #[trigger] integer_of(d) is Some
                &&& value == l + seq!['.'] + c + seq![','] + m + seq!['.'] + d
            },
{
    let n = find(value, ',');
    let a = value.take(n);
    let b = value.skip(n + 1);
    lemma_find_bounds(value, ',');
    lemma_find_bounds(a, '.');
    lemma_find_bounds(b, '.');
    let i = find(a, '.');
    let j = find(b, '.');
    let l = a.take(i);
    let c = a.skip(i + 1);
    let m = b.take(j);
    let d = b.skip(j + 1);
    assert(integer_of(l) is Some && integer_of(c) is Some);
    assert(integer_of(m) is Some && integer_of(d) is Some);
    assert(a =~= l + seq!['.'] + c);
    assert(b =~= m + seq!['.'] + d);
    assert(value =~= a + seq![','] + b);
    assert(value =~= l + seq!['.'] + c + seq![','] + m + seq!['.'] + d);
}

/// Behind `-range` and its value the text starts at one of the two coordinates, and
/// neither of them is in an earlier line, or in the same line further left.
pub proof fn law_range_starts_first(r: ArgReader, value: Seq<char>, a: Coord, b: Coord)
    requires
        r.range_next,
        range_of(value) == Some((a, b)),
    ensures
        r.with(value) matches Ok(next) && {
            let start = next.start;
            &&& !next.range_next
            &&& start == a || start == b
            &&& start.line < a.line || (start.line == a.line && start.column <= a.column)
            &&& start.line < b.line || (start.line == b.line && start.column <= b.column)
        },
{
}

/// An argument is the word `-range`, which leaves the start as it is until its value
/// has been read, or such a value; anything else is named in the message, and a
/// value that is none has a message of its own.
pub proof fn law_one_argument(start: Coord, arg: Seq<char>)
    ensures
        arg == "-range"@ ==> (ArgReader { start, range_next: false }).with(arg) == Ok::<
            ArgReader,
            Seq<char>,
        >(ArgReader { start, range_next: true }),
        arg != "-range"@ ==> (ArgReader { start, range_next: false }).with(arg) == Err::<
            ArgReader,
            Seq<char>,
        >("invalid argument '"@ + arg + "'"@),
        range_of(arg) is None ==> (ArgReader { start, range_next: true }).with(arg) == Err::<
            ArgReader,
            Seq<char>,
        >("invalid value for -range"@),
        (ArgReader { start, range_next: true }).at_end() == Err::<Coord, Seq<char>>(
            "-range needs an argument"@,
        ),
        (ArgReader { start, range_next: false }).at_end() == Ok::<Coord, Seq<char>>(start),
        ArgReader::initial() == (ArgReader {
            start: Coord { line: 1, column: 1 },
            range_next: false,
        }),
{
}

/// Without arguments the text starts at `1.1`. A `-range` with its value starts it at
/// the first of the two coordinates, whatever came before, and the arguments behind
/// them are read from there.
pub proof fn law_last_range_counts(
    before: Coord,
    value: Seq<char>,
    a: Coord,
    b: Coord,
    rest: Seq<Seq<char>>,
)
    requires
        range_of(value) == Some((a, b)),
    ensures
        read_all(ArgReader::initial(), seq![]) == Ok::<Coord, Seq<char>>(
            (Coord { line: 1, column: 1 }),
        ),
        ({
            let first = if a.line < b.line || (a.line == b.line && a.column <= b.column) {
                a
            } else {
                b
            };
            read_all(
                ArgReader { start: before, range_next: false },
                seq!["-range"@, value] + rest,
            ) == read_all(ArgReader { start: first, range_next: false }, rest)
        }),
{
    let args = seq!["-range"@, value] + rest;
    reveal_with_fuel(read_all, 3);
    assert(args.skip(1)[0] == value);
    assert(args.skip(1).skip(1) =~= rest);
}

} // verus!
