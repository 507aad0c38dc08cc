use kak_ansi_filter::args::{parse_range, ArgReader};
use kak_ansi_filter::command::{fail_command, set_option_command};
use kak_ansi_filter::coord::Coord;
use kak_ansi_filter::filter::filter_bytes;

/// The text and the command for an input, or the command of a failure.
fn run(args: &[&str], input: &[u8]) -> Result<(String, String), String> {
    let mut reader = ArgReader::new();
    for arg in args {
        reader = match reader.read(arg) {
            Ok(next) => next,
            Err(message) => return Err(fail_command(&message)),
        };
    }
    let start = match reader.finish() {
        Ok(start) => start,
        Err(message) => return Err(fail_command(&message)),
    };
    let (out, ranges) = filter_bytes(start, input).expect("coordinates out of range");
    Ok((out, set_option_command(&ranges)))
}

fn command(args: &[&str], input: &[u8]) -> String {
    run(args, input).unwrap().1
}

fn failure(args: &[&str]) -> String {
    run(args, b"").unwrap_err()
}

#[test]
fn empty_input_prints_bare_protocol_line() {
    let (out, command) = run(&[], b"").unwrap();
    assert!(out.is_empty());
    assert_eq!(command, "set-option -add buffer ansi_color_ranges\n");
}

#[test]
fn ranges_are_space_separated_single_line() {
    let (out, command) = run(&[], b"\x1b[32mxxx\x1b[31myyy").unwrap();
    assert_eq!(out, "xxxyyy");
    assert_eq!(
        command,
        "set-option -add buffer ansi_color_ranges 1.1,1.3|green 1.4,1.6|red\n"
    );
}

#[test]
fn range_flag_offsets_coordinates() {
    assert_eq!(
        command(&["-range", "8.3,10.2"], b"\x1b[32mxxx"),
        "set-option -add buffer ansi_color_ranges 8.3,8.5|green\n"
    );
}

#[test]
fn reversed_range_is_normalized() {
    assert_eq!(
        command(&["-range", "10.2,8.3"], b"\x1b[32mxxx"),
        "set-option -add buffer ansi_color_ranges 8.3,8.5|green\n"
    );
}

#[test]
fn invalid_argument_fails() {
    assert_eq!(
        failure(&["--bogus"]),
        "fail 'kak-ansi-filter: invalid argument ''--bogus'''\n"
    );
}

#[test]
fn invalid_argument_with_quotes_is_escaped() {
    assert_eq!(
        failure(&["a'b\"c"]),
        "fail 'kak-ansi-filter: invalid argument ''a''b\"c'''\n"
    );
}

#[test]
fn expansions_in_argv_stay_inert() {
    assert_eq!(
        failure(&["%sh{touch /tmp/pwned}"]),
        "fail 'kak-ansi-filter: invalid argument ''%sh{touch /tmp/pwned}'''\n"
    );
}

#[test]
fn range_needs_an_argument() {
    assert_eq!(
        failure(&["-range"]),
        "fail 'kak-ansi-filter: -range needs an argument'\n"
    );
}

#[test]
fn range_rejects_garbage() {
    assert_eq!(
        failure(&["-range", "nonsense"]),
        "fail 'kak-ansi-filter: invalid value for -range'\n"
    );
}

#[test]
fn range_rejects_trailing_garbage() {
    for bad in ["1.1,2.2x", " 1.1,2.2", "1.1,2.2,3.3"] {
        assert_eq!(
            failure(&["-range", bad]),
            "fail 'kak-ansi-filter: invalid value for -range'\n"
        );
    }
}

#[test]
fn invalid_utf8_does_not_truncate_output() {
    let (out, _) = run(&[], b"before\xffafter").unwrap();
    assert_eq!(out.as_bytes(), "before\u{FFFD}after".as_bytes());
}

#[test]
fn last_range_wins_and_first_error_counts() {
    assert_eq!(
        command(&["-range", "8.3,9.1", "-range", "2.5,2.4"], b"\x1b[1mx"),
        "set-option -add buffer ansi_color_ranges 2.4,2.4|default+b\n"
    );
    assert_eq!(
        failure(&["-range", "x", "--bogus"]),
        "fail 'kak-ansi-filter: invalid value for -range'\n"
    );
    assert_eq!(
        failure(&["-range", "1.1,1.1", "y", "-range"]),
        "fail 'kak-ansi-filter: invalid argument ''y'''\n"
    );
}

#[test]
fn coordinates_are_read_as_integers() {
    let parse = |s: &str| parse_range(s).map(|(a, b)| (a.line, a.column, b.line, b.column));
    assert_eq!(parse("+1.-2,-0.007"), Some((1, -2, 0, 7)));
    assert_eq!(
        parse("2147483647.-2147483648,1.1"),
        Some((i32::MAX, i32::MIN, 1, 1))
    );
    for bad in [
        "2147483648.1,1.1",
        "1.-2147483649,1.1",
        "99999999999999999999.1,1.1",
        "-.1,1.1",
        "+.1,1.1",
        ".1,1.1",
        "1.,1.1",
        "1.1.1,1.1",
        "1_0.1,1.1",
        "--1.1,1.1",
        "1.1,",
        ",1.1",
    ] {
        assert_eq!(parse(bad), None, "{}", bad);
    }
}

#[test]
fn written_ranges_are_read_back() {
    for n in [0, 1, 9, 10, 99, 12345, i32::MAX, i32::MIN, -1, -10] {
        let a = Coord { line: n, column: 1 };
        let b = Coord { line: 7, column: n };
        let mut text = String::new();
        a.push_to(&mut text);
        assert_eq!(text, format!("{}.{}", a.line, a.column));
        text.push(',');
        b.push_to(&mut text);
        assert_eq!(parse_range(&text), Some((a, b)));
    }
}

#[test]
fn coordinates_out_of_range_are_noticed() {
    let at = |line: i32, column: i32, input: &[u8]| filter_bytes(Coord { line, column }, input);
    let (out, ranges) = at(1, i32::MAX - 1, b"\x1b[31mx").unwrap();
    assert_eq!(out, "x");
    assert_eq!(ranges, " 1.2147483646,1.2147483646|red");
    assert_eq!(at(1, i32::MAX, b"x"), None);
    assert_eq!(at(1, i32::MAX, b"\n"), None);
    assert_eq!(at(i32::MAX, 1, b"a\n"), None);
    assert_eq!(at(1, i32::MAX - 2, "┘".as_bytes()), None);
    assert_eq!(at(1, i32::MIN, b""), None);
    assert!(at(1, i32::MIN + 1, b"x").is_some());
    assert_eq!(
        at(1, i32::MAX, b"\x1b[31m"),
        Some((String::new(), String::new()))
    );
}
