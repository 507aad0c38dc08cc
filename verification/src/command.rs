//! The Kakoune commands that the filter answers with.

use crate::text::chars_of;
use vstd::prelude::*;

verus! {

/// `s` with every single quote doubled.
pub open spec fn doubled(s: Seq<char>) -> Seq<char>
    decreases s.len(),
{
    if s.len() == 0 {
        seq![]
    } else if s[0] == '\'' {
        seq!['\'', '\''] + doubled(s.skip(1))
    } else {
        seq![s[0]] + doubled(s.skip(1))
    }
}

/// The command that makes Kakoune fail with a message. The message stands in
/// single quotes, in which Kakoune expands nothing.
pub open spec fn fail_text(message: Seq<char>) -> Seq<char> {
    "fail 'kak-ansi-filter: "@ + doubled(message) + "'\n"@
}

/// The command that makes Kakoune fail with a message.
pub fn fail_command(message: &str) -> (command: String)
    ensures
        command@ == fail_text(message@),
{
    let chars = chars_of(message);
    let mut command = "fail 'kak-ansi-filter: ".to_owned();
    let mut i: usize = 0;
    let ghost whole = command@ + doubled(message@);
    assert(message@.skip(0) =~= message@);
    while i < chars.len()
        invariant
            i <= chars@.len(),
            chars@ == message@,
            command@ + doubled(message@.skip(i as int)) == whole,
        decreases chars@.len() - i,
    {
        let ghost before = command@;
        let ch = chars[i];
        if ch == '\'' {
            command.push(ch);
        }
        command.push(ch);
        proof {
            let rest = message@.skip(i as int);
            assert(rest[0] == ch);
            assert(rest.skip(1) =~= message@.skip(i + 1));
            assert(command@ + doubled(rest.skip(1)) =~= before + doubled(rest));
        }
        i += 1;
    }
    assert(message@.skip(i as int) =~= Seq::<char>::empty());
    assert(command@ =~= whole);
    command.append("'\n");
    command
}

/// How Kakoune reads what follows an opening single quote: the string up to the
/// closing one, in which two quotes stand for one, and what is left behind it.
pub open spec fn read_quoted(s: Seq<char>) -> Option<(Seq<char>, Seq<char>)>
    decreases s.len(),
{
    if s.len() == 0 {
        None
    } else if s[0] == '\'' && (s.len() == 1 || s[1] != '\'') {
        Some((seq![], s.skip(1)))
    } else {
        let n: int = if s[0] == '\'' {
            2
        } else {
            1
        };
        match read_quoted(s.skip(n)) {
            Some((string, rest)) => Some((seq![s[0]] + string, rest)),
            None => None,
        }
    }
}

proof fn lemma_read_doubled(s: Seq<char>, rest: Seq<char>)
    requires
        rest.len() > 0 ==> rest[0] != '\'',
    ensures
        read_quoted(doubled(s) + seq!['\''] + rest) == Some((s, rest)),
    decreases s.len(),
{
    let t = doubled(s) + seq!['\''] + rest;
    if s.len() == 0 {
        assert(t.skip(1) =~= rest);
        assert(t[0] == '\'');
        assert(s =~= seq![]);
    } else {
        let n: int = if s[0] == '\'' {
            2
        } else {
            1
        };
        lemma_read_doubled(s.skip(1), rest);
        assert(t.skip(n) =~= doubled(s.skip(1)) + seq!['\''] + rest);
        assert(seq![s[0]] + s.skip(1) =~= s);
        assert(t[0] == s[0]);
    }
}

proof fn lemma_read_unquoted(a: Seq<char>, s: Seq<char>, string: Seq<char>, rest: Seq<char>)
    requires
        forall|i: int| 0 <= i < a.len() ==> #[trigger] a[i] != '\'',
        read_quoted(s) == Some((string, rest)),
    ensures
        read_quoted(a + s) == Some((a + string, rest)),
    decreases a.len(),
{
    if a.len() == 0 {
        assert(a + s =~= s);
        assert(a + string =~= string);
    } else {
        assert((a + s).skip(1) =~= a.skip(1) + s);
        assert(a[0] != '\'');
        assert forall|i: int| 0 <= i < a.skip(1).len() implies #[trigger] a.skip(1)[i] != '\'' by {
            assert(a.skip(1)[i] == a[i + 1]);
        }
        lemma_read_unquoted(a.skip(1), s, string, rest);
        assert(seq![a[0]] + (a.skip(1) + string) =~= a + string);
    }
}

/// Whatever a message holds, it stays inside of the quoted string: Kakoune reads
/// the command as the word `fail` with one string, the message behind the name
/// of the program, and a newline.
pub proof fn law_fail_message_is_inert(message: Seq<char>)
    ensures
        fail_text(message).take(6) == "fail '"@,
        read_quoted(fail_text(message).skip(6)) == Some(("kak-ansi-filter: "@ + message, "\n"@)),
{
    reveal_strlit("fail 'kak-ansi-filter: ");
    reveal_strlit("fail '");
    reveal_strlit("kak-ansi-filter: ");
    reveal_strlit("'\n");
    reveal_strlit("\n");
    let text = fail_text(message);
    assert(text.take(6) =~= "fail '"@);
    lemma_read_doubled(message, "\n"@);
    let tail = doubled(message) + seq!['\''] + "\n"@;
    assert(text.skip(6) =~= "kak-ansi-filter: "@ + tail);
    lemma_read_unquoted("kak-ansi-filter: "@, tail, message, "\n"@);
}

/// The command that adds range-specs to the ones of the buffer.
pub open spec fn set_option_text(ranges: Seq<char>) -> Seq<char> {
    "set-option -add buffer ansi_color_ranges"@ + ranges + "\n"@
}

/// The command that adds range-specs to the ones of the buffer.
pub fn set_option_command(ranges: &str) -> (command: String)
    ensures
        command@ == set_option_text(ranges@),
{
    let mut command = "set-option -add buffer ansi_color_ranges".to_owned();
    command.append(ranges);
    command.append("\n");
    command
}

/// The answer is one `set-option -add` command for the buffer's option, with the
/// range-specs as they are, and a newline at its end.
pub proof fn law_set_option_text(ranges: Seq<char>)
    ensures
        set_option_text(ranges) == "set-option -add buffer ansi_color_ranges"@ + ranges
            + seq!['\n'],
{
    reveal_strlit("\n");
    assert("\n"@ =~= seq!['\n']);
}

} // verus!
