use kak_ansi_filter::args::parse_range;
use kak_ansi_filter::coord::Coord;

#[test]
fn parse_range_valid() {
    assert_eq!(
        parse_range("8.3,10.2"),
        Some((Coord { line: 8, column: 3 }, Coord { line: 10, column: 2 }))
    );
    assert_eq!(
        parse_range("1.1,1.1"),
        Some((Coord { line: 1, column: 1 }, Coord { line: 1, column: 1 }))
    );
}

#[test]
fn parse_range_invalid() {
    assert_eq!(parse_range(""), None);
    assert_eq!(parse_range("1.1"), None);
    assert_eq!(parse_range("1,1"), None);
    assert_eq!(parse_range("a.b,c.d"), None);
    assert_eq!(parse_range("1.1,2.x"), None);
}

#[test]
fn coord_ordering_is_line_then_column() {
    let a = Coord { line: 10, column: 2 };
    let b = Coord { line: 8, column: 3 };
    assert_eq!(a.min(b), b);
    let c = Coord { line: 8, column: 9 };
    assert_eq!(b.min(c), b);
}
