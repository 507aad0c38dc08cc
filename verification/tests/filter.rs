use kak_ansi_filter::coord::Coord;
use kak_ansi_filter::filter::Filter;

fn run_at(input: &str, line: i32, column: i32) -> (String, Vec<String>) {
    let mut f = Filter::new(Coord { line, column });
    input.chars().for_each(|ch| f.feed(ch));
    let (out, ranges) = f.finish();
    (out, ranges.split_whitespace().map(String::from).collect())
}

fn run(input: &str) -> (String, Vec<String>) {
    run_at(input, 1, 1)
}

fn ranges(input: &str) -> Vec<String> {
    run(input).1
}

fn v(ranges: &[&str]) -> Vec<String> {
    ranges.iter().map(|r| r.to_string()).collect()
}

#[test]
fn removes_ansi_escapes() {
    let (out, r) = run(" \x1b[32m 1.\x1b[39m hello");
    assert_eq!(out, "  1. hello");
    assert_eq!(r, v(&["1.2,1.4|green"]));
}

#[test]
fn charset_escape_selects_line_drawing() {
    assert_eq!(run("\x1b(0jklmnqtuvwx").0, "┘┐┌└┼─├┤┴┬│");
}

#[test]
fn charset_escape_resets_line_drawing() {
    assert_eq!(run("\x1b(0\x1b(Bjklmnqtuvwx").0, "jklmnqtuvwx");
}

#[test]
fn ascii_so_selects_line_drawing() {
    assert_eq!(run("\u{0E}jklmnqtuvwx").0, "┘┐┌└┼─├┤┴┬│");
}

#[test]
fn ascii_si_resets_line_drawing() {
    assert_eq!(run("\u{0E}\u{0F}jklmnqtuvwx").0, "jklmnqtuvwx");
}

#[test]
fn emits_face_at_eof() {
    assert_eq!(ranges("\x1b[32mxxx"), v(&["1.1,1.3|green"]));
}

#[test]
fn does_not_emit_default_face() {
    assert_eq!(ranges("\x1b[39mxxx"), v(&[]));
}

#[test]
fn new_face_for_fg_change() {
    assert_eq!(
        ranges("\x1b[32mxxx\x1b[31myyy"),
        v(&["1.1,1.3|green", "1.4,1.6|red"])
    );
}

#[test]
fn new_face_for_bg_change() {
    assert_eq!(
        ranges("\x1b[45mxxx\x1b[41myyy"),
        v(&["1.1,1.3|default,magenta", "1.4,1.6|default,red"])
    );
}

#[test]
fn merges_ranges_at_bof() {
    assert_eq!(ranges("\x1b[32m\x1b[1mxxx"), v(&["1.1,1.3|green+b"]));
}

#[test]
fn merges_ranges() {
    assert_eq!(ranges("y\x1b[32m\x1b[1mxxx"), v(&["1.2,1.4|green+b"]));
}

#[test]
fn no_new_face_if_no_change() {
    assert_eq!(ranges("\x1b[31mxxx\x1b[31myyy"), v(&["1.1,1.6|red"]));
}

#[test]
fn handles_change_at_2_1() {
    assert_eq!(ranges("xy\n\x1b[31mxxx"), v(&["2.1,2.3|red"]));
}

#[test]
fn handles_change_at_eol() {
    assert_eq!(ranges("xy\x1b[31m\nxxx"), v(&["1.3,2.3|red"]));
}

#[test]
fn can_specify_range() {
    assert_eq!(run_at("\x1b[32mxxx", 8, 3).1, v(&["8.3,8.5|green"]));
}

#[test]
fn advances_using_byte_offsets() {
    assert_eq!(ranges("┘\x1b[32mx"), v(&["1.4,1.4|green"]));
}

#[test]
fn covers_ending_char_bytes() {
    assert_eq!(
        ranges("\x1b[31m┘\x1b[32mx"),
        v(&["1.1,1.3|red", "1.4,1.4|green"])
    );
}

#[test]
fn adds_ranges_for_fg_colors() {
    assert_eq!(ranges(" \x1b[32m 1."), v(&["1.2,1.4|green"]));
}

#[test]
fn sgr_39_resets_fg() {
    assert_eq!(ranges(" \x1b[32m 1.\x1b[39mxx"), v(&["1.2,1.4|green"]));
}

#[test]
fn sgr_0_resets_fg() {
    assert_eq!(ranges(" \x1b[32m 1.\x1b[0m hello"), v(&["1.2,1.4|green"]));
}

#[test]
fn sgr_empty_resets_fg() {
    assert_eq!(ranges(" \x1b[32m 1.\x1b[m hello"), v(&["1.2,1.4|green"]));
}

#[test]
fn truecolor_fg() {
    assert_eq!(ranges("\x1b[38;2;253;17;129mxxx"), v(&["1.1,1.3|rgb:FD1181"]));
}

#[test]
fn palette_ansi_fg() {
    assert_eq!(ranges("\x1b[38;5;2mxxx"), v(&["1.1,1.3|green"]));
}

#[test]
fn palette_bright_ansi_fg() {
    assert_eq!(ranges("\x1b[38;5;10mxxx"), v(&["1.1,1.3|bright-green"]));
}

#[test]
fn palette_cube_fg() {
    assert_eq!(ranges("\x1b[38;5;121mxxx"), v(&["1.1,1.3|rgb:87FFAF"]));
}

#[test]
fn palette_greyscale_fg() {
    assert_eq!(ranges("\x1b[38;5;239mxxx"), v(&["1.1,1.3|rgb:4E4E4E"]));
}

#[test]
fn adds_ranges_for_bg_colors() {
    assert_eq!(ranges(" \x1b[41m 1."), v(&["1.2,1.4|default,red"]));
}

#[test]
fn sgr_49_resets_bg() {
    assert_eq!(ranges(" \x1b[41m 1.\x1b[49mx"), v(&["1.2,1.4|default,red"]));
}

#[test]
fn sgr_0_resets_bg() {
    assert_eq!(
        ranges(" \x1b[42m 1.\x1b[0m hello"),
        v(&["1.2,1.4|default,green"])
    );
}

#[test]
fn sgr_empty_resets_bg() {
    assert_eq!(
        ranges(" \x1b[42m 1.\x1b[m hello"),
        v(&["1.2,1.4|default,green"])
    );
}

#[test]
fn truecolor_bg() {
    assert_eq!(
        ranges("\x1b[48;2;17;129;253mxxx"),
        v(&["1.1,1.3|default,rgb:1181FD"])
    );
}

#[test]
fn bold_set() {
    assert_eq!(ranges("x\x1b[1mxx"), v(&["1.2,1.3|default+b"]));
}

#[test]
fn bold_reset_21() {
    assert_eq!(ranges("x\x1b[1mx\x1b[21mx"), v(&["1.2,1.2|default+b"]));
}

#[test]
fn bold_reset_0() {
    assert_eq!(ranges("x\x1b[1mx\x1b[0mx"), v(&["1.2,1.2|default+b"]));
}

#[test]
fn bold_reset_22() {
    assert_eq!(ranges("x\x1b[1mx\x1b[22mx"), v(&["1.2,1.2|default+b"]));
}

#[test]
fn dim_set() {
    assert_eq!(ranges("\x1b[2mxxx"), v(&["1.1,1.3|default+d"]));
}

#[test]
fn dim_reset_0() {
    assert_eq!(ranges("\x1b[2mx\x1b[0mx"), v(&["1.1,1.1|default+d"]));
}

#[test]
fn dim_reset_22() {
    assert_eq!(ranges("\x1b[2mxx\x1b[22mx"), v(&["1.1,1.2|default+d"]));
}

#[test]
fn italic_set() {
    assert_eq!(ranges("\x1b[3mxxx"), v(&["1.1,1.3|default+i"]));
}

#[test]
fn italic_reset_0() {
    assert_eq!(ranges("\x1b[3mx\x1b[0mxx"), v(&["1.1,1.1|default+i"]));
}

#[test]
fn italic_reset_23() {
    assert_eq!(ranges("\x1b[3mx\x1b[23mxx"), v(&["1.1,1.1|default+i"]));
}

#[test]
fn underline_set() {
    assert_eq!(ranges("\x1b[4mxxx"), v(&["1.1,1.3|default+u"]));
}

#[test]
fn underline_reset_0() {
    assert_eq!(ranges("\x1b[4mx\x1b[0mx"), v(&["1.1,1.1|default+u"]));
}

#[test]
fn underline_reset_24() {
    assert_eq!(ranges("\x1b[4mx\x1b[24mx"), v(&["1.1,1.1|default+u"]));
}

#[test]
fn blink_set() {
    assert_eq!(ranges("\x1b[5mxxx"), v(&["1.1,1.3|default+B"]));
}

#[test]
fn blink_reset_0() {
    assert_eq!(ranges("\x1b[5mx\x1b[0mx"), v(&["1.1,1.1|default+B"]));
}

#[test]
fn blink_reset_25() {
    assert_eq!(ranges("\x1b[5mx\x1b[25mx"), v(&["1.1,1.1|default+B"]));
}

#[test]
fn reverse_set() {
    assert_eq!(ranges("\x1b[7mxxx"), v(&["1.1,1.3|default+r"]));
}

#[test]
fn reverse_reset_0() {
    assert_eq!(ranges("\x1b[7mx\x1b[0mx"), v(&["1.1,1.1|default+r"]));
}

#[test]
fn reverse_reset_27() {
    assert_eq!(ranges("\x1b[7mx\x1b[27mx"), v(&["1.1,1.1|default+r"]));
}

#[test]
fn overstrike_removes_backspaces() {
    let (out, r) = run(" H\u{8}He\u{8}el\u{8}ll\u{8}lo\u{8}o ");
    assert_eq!(out, " Hello ");
    assert_eq!(r, v(&["1.2,1.7|default+b"]));
}

#[test]
fn overstrike_sets_and_resets_boldface() {
    let (out, r) = run(" H\u{8}He\u{8}ello");
    assert_eq!(out, " Hello");
    assert_eq!(r, v(&["1.2,1.3|default+b"]));
}

#[test]
fn overstrike_removes_underscore_backspace() {
    assert_eq!(run(" _\u{8}H_\u{8}e_\u{8}l_\u{8}l_\u{8}o ").0, " Hello ");
}

#[test]
fn overstrike_removes_backspace_underscore() {
    assert_eq!(run(" H\u{8}_e\u{8}_l\u{8}_l\u{8}_o\u{8}_ ").0, " Hello ");
}

#[test]
fn overstrike_sets_and_resets_underline() {
    let (out, r) = run(" H\u{8}__\u{8}el\u{8}_lo ");
    assert_eq!(out, " Hello ");
    assert_eq!(r, v(&["1.2,1.4|default+u"]));
}

#[test]
fn combined_overstrike() {
    let (out, r) = run(" H\u{8}H\u{8}__\u{8}e\u{8}el\u{8}_\u{8}llo ");
    assert_eq!(out, " Hello ");
    assert_eq!(r, v(&["1.2,1.4|default+ub"]));
}

#[test]
fn other_overstrikes_are_discarded() {
    let (out, r) = run("X\u{8}Y");
    assert_eq!(out, "Y");
    assert_eq!(r, v(&[]));
}

#[test]
fn ignores_hyperlinks() {
    assert_eq!(
        run("editor: \x1b]8;;https://kakoune.org/\x1b\\kakoune\x1b]8;;\x1b\\").0,
        "editor: kakoune"
    );
}

#[test]
fn ignores_hyperlinks_terminated_by_bel() {
    assert_eq!(
        run("editor: \x1b]8;;https://kakoune.org/\u{7}kakoune\x1b]8;;\u{7}").0,
        "editor: kakoune"
    );
}

#[test]
fn ignores_shell_integration_escapes() {
    assert_eq!(run("hello\x1b]133;A\x1b\\world").0, "helloworld");
}

#[test]
fn ignores_common_private_modes() {
    assert_eq!(run("hello\x1b[?47hworld").0, "helloworld");
}

#[test]
fn question_marked_sgr_is_processed() {
    let (out, r) = run("\x1b[?4mx");
    assert_eq!(out, "x");
    assert_eq!(r, v(&["1.1,1.1|default+u"]));
}

#[test]
fn question_marked_empty_sgr_resets() {
    let (out, r) = run("\x1b[31mx\x1b[?my");
    assert_eq!(out, "xy");
    assert_eq!(r, v(&["1.1,1.1|red"]));
}

#[test]
fn question_mark_only_accepted_first() {
    assert_eq!(run("\x1b[4;?mx").0, "mx");
    assert_eq!(ranges("\x1b[4;?mx"), v(&[]));
}

#[test]
fn literal_backspace_can_survive() {
    let (out, r) = run("a\u{8}\u{8}cd");
    assert_eq!(out, "\u{8}cd");
    assert_eq!(r, v(&[]));
}

#[test]
fn empty_input() {
    assert_eq!(run(""), (String::new(), v(&[])));
}

#[test]
fn cr_is_deleted() {
    assert_eq!(run("abc\rdef\r\n").0, "abcdef\n");
}

#[test]
fn cr_inside_csi_acts_as_final_byte() {
    assert_eq!(run("\x1b[31\rx").0, "x");
    assert_eq!(ranges("\x1b[31\rx"), v(&[]));
}

#[test]
fn non_m_finals_are_swallowed() {
    assert_eq!(run("a\x1b[2J\x1b[1;1Hb\x1b[0Kc").0, "abc");
}

#[test]
fn colon_separated_truecolor() {
    assert_eq!(ranges("\x1b[38:2:253:17:129mx"), v(&["1.1,1.1|rgb:FD1181"]));
}

#[test]
fn unterminated_osc_at_eof_prints_nothing() {
    assert_eq!(run("ok\x1b]0;title never ends").0, "ok");
}

#[test]
fn trailing_sgr_keeps_final_run_face() {
    assert_eq!(ranges("\x1b[32mxxx\x1b[31m"), v(&["1.1,1.3|green"]));
    assert_eq!(ranges("\x1b[31mx\x1b[32m"), v(&["1.1,1.1|red"]));
}

#[test]
fn trailing_reset_does_not_lose_final_run() {
    assert_eq!(ranges("\x1b[31mx\x1b[0m"), v(&["1.1,1.1|red"]));
}

#[test]
fn trailing_sgr_after_unstyled_text_emits_nothing() {
    assert_eq!(ranges("x\x1b[31m"), v(&[]));
}

#[test]
fn lone_esc_does_not_arm_state_machine() {
    assert_eq!(run("\x1bA[hello").0, "A[hello");
}

#[test]
fn esc_esc_still_parses_sgr() {
    let (out, r) = run("\x1b\x1b[31mx");
    assert_eq!(out, "x");
    assert_eq!(r, v(&["1.1,1.1|red"]));
}

#[test]
fn esc_cr_still_deletes_cr() {
    assert_eq!(run("\x1b\rx").0, "x");
}

#[test]
fn esc_so_still_toggles_g1() {
    assert_eq!(run("\x1b\u{0E}j").0, "┘");
}

#[test]
fn rgb_components_clamped() {
    assert_eq!(ranges("\x1b[38;2;300;1;2mx"), v(&["1.1,1.1|rgb:FF0102"]));
}

#[test]
fn extended_color_leftovers_reprocessed() {
    assert_eq!(ranges("\x1b[38;2;1;31mx"), v(&["1.1,1.1|red+b"]));
    assert_eq!(ranges("\x1b[38;6;31mx"), v(&["1.1,1.1|red"]));
    assert_eq!(ranges("\x1b[38;5mx"), v(&[]));
    assert_eq!(ranges("\x1b[38;5;300mx"), v(&[]));
}

#[test]
fn huge_parameters_do_not_panic() {
    assert_eq!(ranges("\x1b[99999999999mx"), v(&[]));
    assert_eq!(run("\x1b[99999999999mx").0, "x");
}

#[test]
fn strikethrough() {
    assert_eq!(ranges("\x1b[9mx\x1b[29my"), v(&["1.1,1.1|default+s"]));
}

#[test]
fn long_osc_terminated_by_st_past_cap() {
    let input = format!("\x1b]0;{}\x1b\\tail", "a".repeat(2000));
    assert_eq!(run(&input).0, "tail");
}

#[test]
fn oversized_csi_is_capped_not_printed() {
    let input = format!("\x1b[{}31mx", "1;".repeat(2000));
    let (out, r) = run(&input);
    assert_eq!(out, "x");
    assert_eq!(r, v(&[]));
}

#[test]
fn csi_at_cap_boundary() {
    let ok = format!("\x1b[{}31mx", ";".repeat(1015));
    assert_eq!(ranges(&ok), v(&["1.1,1.1|red"]));
    let full = format!("\x1b[{}31mx", ";".repeat(1016));
    assert_eq!(ranges(&full), v(&[]));
}

#[test]
fn trailing_sgr_with_range_stays_inside_selection() {
    assert_eq!(run_at("x\x1b[32m", 8, 3).1, v(&[]));
}

#[test]
fn lone_sgr_with_range_emits_nothing() {
    assert_eq!(run_at("\x1b[32m", 8, 3).1, v(&[]));
}

#[test]
fn invalid_utf8_becomes_replacement_char() {
    let mut f = Filter::new(Coord { line: 1, column: 1 });
    f.feed_bytes(b"\xffabc");
    let (out, _) = f.finish();
    assert_eq!(out, "\u{FFFD}abc");
}

#[test]
fn invalid_utf8_does_not_truncate_and_keeps_coords() {
    let mut f = Filter::new(Coord { line: 1, column: 1 });
    f.feed_bytes(b"\xff\x1b[31mx");
    let (out, ranges) = f.finish();
    assert_eq!(out, "\u{FFFD}x");
    assert_eq!(ranges, " 1.4,1.4|red");
}

#[test]
fn truncated_utf8_at_eof() {
    let mut f = Filter::new(Coord { line: 1, column: 1 });
    f.feed_bytes(b"ab\xe2\x94");
    let (out, _) = f.finish();
    assert_eq!(out, "ab\u{FFFD}");
}
