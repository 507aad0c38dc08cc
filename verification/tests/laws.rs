use kak_ansi_filter::coord::Coord;
use kak_ansi_filter::face::{Color, Face, BOLD, DIM, ITALIC};
use kak_ansi_filter::filter::{filter_bytes, Filter};
use kak_ansi_filter::sgr::parse_codes;

const START: Coord = Coord { line: 1, column: 1 };

fn run(input: &str) -> (String, String) {
    filter_bytes(START, input.as_bytes()).unwrap()
}

const SAMPLES: [&str; 8] = [
    "plain text\nin lines",
    " \x1b[32m 1.\x1b[39m hello",
    "\x1b(0jklmnqtuvwx\x1b(B x",
    " H\u{8}H\u{8}__\u{8}e\u{8}el\u{8}_\u{8}llo ",
    "a\x1b]0;title\u{7}b\x1b]8;;x\x1b\\c",
    "\x1b[38;5;121;48;2;1;2;3;1;4mwide ┘😀\x1b[0m\r\nend",
    "a\u{8}\u{8}cd",
    "\x1b[31",
];

#[test]
fn characters_and_bytes_are_read_alike() {
    for sample in SAMPLES {
        let mut f = Filter::new(START);
        sample.chars().for_each(|ch| f.feed(ch));
        assert_eq!(f.finish(), run(sample));
    }
}

#[test]
fn input_can_be_fed_in_pieces() {
    for sample in SAMPLES {
        for (cut, _) in sample.char_indices() {
            let mut f = Filter::new(START);
            f.feed_bytes(&sample.as_bytes()[..cut]);
            f.feed_bytes(&sample.as_bytes()[cut..]);
            assert_eq!(f.finish(), run(sample));
        }
    }
}

#[test]
fn output_is_stripped_and_stays_as_it_is() {
    for sample in SAMPLES {
        let (out, _) = run(sample);
        assert!(!out.contains(|c| matches!(c, '\x1b' | '\r' | '\u{E}' | '\u{F}')));
        if !out.contains('\u{8}') {
            assert_eq!(run(&out), (out.clone(), String::new()));
        }
    }
}

#[test]
fn plain_text_is_unchanged() {
    let text = "any \u{1}\u{7}\t text\n┘ with [31m in it\n";
    assert_eq!(run(text), (text.to_string(), String::new()));
}

#[test]
fn trailing_sgr_changes_nothing() {
    for sample in ["", "x", "\x1b[31mx", "\x1b[31mx\x1b[0m", "a\u{8}a", "\x1b[1mx\n"] {
        for sgr in ["\x1b[m", "\x1b[32m", "\x1b[48;5;9m", "\x1b[?4m"] {
            assert_eq!(run(&format!("{}{}", sample, sgr)), run(sample));
        }
    }
}

#[test]
fn trailing_sgr_ends_the_attributes_of_an_overstrike() {
    assert_eq!(run("a\u{8}ab").1, " 1.1,1.2|default+b");
    assert_eq!(run("a\u{8}ab\x1b[m").1, " 1.1,1.1|default+b");
}

#[test]
fn osc_sequences_leave_no_trace() {
    for body in ["", "0;title", "\\", "\x1b[31m", "\x1bx\\", "(0\n\r"] {
        for end in ["\u{7}", "\x1b\\"] {
            let input = format!("\x1b[31ma\x1b]{}{}b", body, end);
            assert_eq!(run(&input), ("ab".to_string(), " 1.1,1.2|red".to_string()));
        }
    }
}

#[test]
fn csi_sequences_without_m_change_nothing() {
    for input in ["a\x1b[31Kb", "a\x1b[?25hb", "a\x1b[;:;Hb", "a\x1b[\u{7}b", "a\x1b[1 b"] {
        assert_eq!(run(input), ("ab".to_string(), String::new()));
    }
}

#[test]
fn other_charsets_change_nothing() {
    assert_eq!(run("\x1b(0\x1b(Aq").0, "─");
    assert_eq!(run("\x1b(Aq").0, "q");
}

#[test]
fn lone_escapes_are_dropped() {
    for follower in ["A", ")", "\n", "é"] {
        assert_eq!(run(&format!("\x1b{}x", follower)), run(&format!("{}x", follower)));
    }
}

#[test]
fn overstrikes_style_one_character() {
    assert_eq!(run("x\u{8}xyz"), ("xyz".to_string(), " 1.1,1.1|default+b".to_string()));
    assert_eq!(run("_\u{8}xyz"), ("xyz".to_string(), " 1.1,1.1|default+u".to_string()));
    assert_eq!(run("x\u{8}_yz"), ("xyz".to_string(), " 1.1,1.1|default+u".to_string()));
    assert_eq!(run("_\u{8}_yz"), ("_yz".to_string(), " 1.1,1.1|default+ub".to_string()));
    assert_eq!(run("x\u{8}yyz"), ("yyz".to_string(), String::new()));
    assert_eq!(run("\u{8}_"), (String::new(), String::new()));
}

#[test]
fn overstrikes_keep_the_attributes_from_before() {
    assert_eq!(
        run("\x1b[4;31mx\u{8}xyz").1,
        " 1.1,1.1|red+ub 1.2,1.3|red+u"
    );
}

#[test]
fn ranges_are_maximal_and_in_order() {
    assert_eq!(
        run("a\x1b[31mbc\x1b[31md\x1b[me\n\x1b[1mf\x1b[22;42mg").1,
        " 1.2,1.4|red 2.1,2.1|default+b 2.2,2.2|default,green"
    );
}

#[test]
fn separators_are_alike() {
    assert_eq!(parse_codes("1;;22:333?4"), vec![1, 22, 333, 4]);
    assert_eq!(parse_codes("1:?22;333:4"), vec![1, 22, 333, 4]);
    assert_eq!(parse_codes("x007y4294967295z4294967296"), vec![7, u32::MAX, u32::MAX]);
}

fn sgr(face: Face, codes: &[u32]) -> Face {
    let mut f = face;
    f.apply_sgr(codes);
    f
}

#[test]
fn a_reset_forgets_what_was_before() {
    let face = sgr(Face::default(), &[31, 42, 1, 4]);
    assert_eq!(sgr(face, &[]), Face::default());
    assert_eq!(sgr(face, &[0, 3]), sgr(Face::default(), &[3]));
}

#[test]
fn codes_act_one_after_the_other() {
    let face = sgr(Face::default(), &[1, 35]);
    assert_eq!(
        sgr(face, &[2, 22, 3, 41, 38, 5, 1, 9]),
        sgr(sgr(face, &[2, 22, 3, 41]), &[38, 5, 1, 9])
    );
}

#[test]
fn dim_and_bold_end_together() {
    let face = Face { attrs: BOLD | DIM | ITALIC, ..Face::default() };
    assert_eq!(sgr(face, &[22]).attrs, ITALIC);
    assert_eq!(sgr(face, &[21]).attrs, DIM | ITALIC);
}

#[test]
fn the_whole_palette() {
    let levels = [0u8, 95, 135, 175, 215, 255];
    for p in 0..=255u32 {
        let expected = match p {
            0..=15 => Color::Named(p as u8),
            16..=231 => {
                let q = (p - 16) as usize;
                Color::Rgb(levels[q / 36], levels[q / 6 % 6], levels[q % 6])
            }
            _ => {
                let grey = (8 + (p - 232) * 10) as u8;
                Color::Rgb(grey, grey, grey)
            }
        };
        assert_eq!(sgr(Face::default(), &[38, 5, p]).fg, expected);
        assert_eq!(sgr(Face::default(), &[48, 5, p]).bg, expected);
    }
    assert_eq!(sgr(Face::default(), &[48, 5, 256]), Face::default());
}

#[test]
fn colors_are_written() {
    assert_eq!(Color::default().to_string(), "default");
    assert_eq!(Color::Named(8).to_string(), "bright-black");
    assert_eq!(Color::Named(15).to_string(), "bright-white");
    assert_eq!(Color::Rgb(0, 0x9a, 0xbf).to_string(), "rgb:009ABF");
}

#[test]
fn another_start_moves_ranges_in_their_first_line_only() {
    let input = "a\x1b[31mbc\x1b[me\x1b[32mf\ng\x1b[1mh\n".as_bytes();
    assert_eq!(
        filter_bytes(START, input).unwrap().1,
        " 1.2,1.3|red 1.5,2.1|green 2.2,2.3|green+b"
    );
    let (out, ranges) = filter_bytes(Coord { line: 8, column: 30 }, input).unwrap();
    assert_eq!(out, "abcef\ngh\n");
    assert_eq!(ranges, " 8.31,8.32|red 8.34,9.1|green 9.2,9.3|green+b");
}

#[test]
fn no_two_faces_are_written_alike() {
    let colors = [
        Color::Default,
        Color::Named(1),
        Color::Named(9),
        Color::Rgb(1, 2, 3),
        Color::Rgb(0x10, 2, 3),
    ];
    let mut texts: Vec<String> = Vec::new();
    for fg in colors {
        for bg in colors {
            for attrs in [0, BOLD, DIM, ITALIC, BOLD | DIM, BOLD | ITALIC] {
                texts.push(Face { fg, bg, attrs }.to_string());
            }
        }
    }
    let count = texts.len();
    texts.sort();
    texts.dedup();
    assert_eq!(texts.len(), count);
}

#[test]
fn codes_split_at_a_separator() {
    for (a, b) in [("", ""), ("38;5", "1"), ("12", "34"), (";;", "?9"), ("1x", "")] {
        for c in [";", ":", "?", "z"] {
            let mut expected = parse_codes(a);
            expected.extend(parse_codes(b));
            assert_eq!(parse_codes(&format!("{}{}{}", a, c, b)), expected);
        }
    }
}

#[test]
fn output_is_no_longer_than_the_input() {
    for sample in SAMPLES {
        assert!(run(sample).0.chars().count() <= sample.chars().count());
    }
}
