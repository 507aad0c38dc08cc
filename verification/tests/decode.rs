use kak_ansi_filter::coord::Coord;
use kak_ansi_filter::decode::decode_next;
use kak_ansi_filter::filter::filter_bytes;

fn decode(bytes: &[u8]) -> String {
    let mut text = String::new();
    let mut i = 0;
    while i < bytes.len() {
        let (ch, n) = decode_next(bytes, i);
        text.push(ch);
        i += n;
    }
    text
}

const EDGES: [u8; 26] = [
    0x00, 0x41, 0x7f, 0x80, 0x8f, 0x90, 0x9f, 0xa0, 0xbf, 0xc0, 0xc1, 0xc2, 0xdf, 0xe0, 0xe1, 0xec,
    0xed, 0xee, 0xef, 0xf0, 0xf1, 0xf3, 0xf4, 0xf5, 0xf8, 0xff,
];

#[test]
fn one_and_two_bytes_decode_as_std_does() {
    for a in 0..=255u8 {
        assert_eq!(decode(&[a]), String::from_utf8_lossy(&[a]));
        for b in 0..=255u8 {
            assert_eq!(decode(&[a, b]), String::from_utf8_lossy(&[a, b]));
        }
    }
}

#[test]
fn three_to_five_bytes_decode_as_std_does() {
    for a in EDGES {
        for b in EDGES {
            for c in EDGES {
                let three = [a, b, c];
                assert_eq!(decode(&three), String::from_utf8_lossy(&three));
                for d in EDGES {
                    let four = [a, b, c, d];
                    assert_eq!(decode(&four), String::from_utf8_lossy(&four));
                    let five = [a, b, c, d, 0xbf];
                    assert_eq!(decode(&five), String::from_utf8_lossy(&five));
                }
            }
        }
    }
}

#[test]
fn every_character_decodes_to_itself() {
    for v in 0..=0x10ffffu32 {
        if let Some(ch) = char::from_u32(v) {
            let mut buffer = [0u8; 4];
            let bytes = ch.encode_utf8(&mut buffer).as_bytes();
            assert_eq!(decode_next(bytes, 0), (ch, bytes.len()));
        }
    }
}

#[test]
fn malformed_sequences_are_as_long_as_they_can_be() {
    assert_eq!(decode_next(b"\xf0\x9f\x98A", 0), ('\u{FFFD}', 3));
    assert_eq!(decode_next(b"\xe2\x94", 0), ('\u{FFFD}', 2));
    assert_eq!(decode_next(b"\xe2A", 0), ('\u{FFFD}', 1));
    assert_eq!(decode_next(b"\xed\xa0\x80", 0), ('\u{FFFD}', 1));
    assert_eq!(decode_next(b"\xf4\x90\x80\x80", 0), ('\u{FFFD}', 1));
    assert_eq!(decode_next(b"\xc0\x80", 0), ('\u{FFFD}', 1));
    assert_eq!(decode_next(b"\xe0\x80\x80", 0), ('\u{FFFD}', 1));
}

#[test]
fn text_can_be_cut_between_characters() {
    let text = "a┘é😀z".as_bytes();
    let broken = b"\xf0\x9fx\xff";
    let mut both = text.to_vec();
    both.extend_from_slice(broken);
    assert_eq!(decode(&both), format!("{}{}", decode(text), decode(broken)));
}

#[test]
fn columns_count_the_bytes_of_wide_characters() {
    let start = Coord { line: 1, column: 1 };
    let (out, ranges) = filter_bytes(start, "aé┘😀\x1b[31mx\n😀y".as_bytes()).unwrap();
    assert_eq!(out, "aé┘😀x\n😀y");
    assert_eq!(ranges, " 1.11,2.5|red");
}
