use kak_ansi_filter::face::{
    Color, Face, BLINK, BOLD, DIM, ITALIC, REVERSE, STRIKE, UNDERLINE,
};
use kak_ansi_filter::sgr::parse_codes;

fn sgr(codes: &[u32]) -> Face {
    let mut f = Face::default();
    f.apply_sgr(codes);
    f
}

#[test]
fn parse_codes_extracts_digit_runs() {
    assert_eq!(parse_codes("38;2;253;17;129"), vec![38, 2, 253, 17, 129]);
    assert_eq!(parse_codes(""), Vec::<u32>::new());
    assert_eq!(parse_codes("?4"), vec![4]);
    assert_eq!(parse_codes("38:2:1:2:3"), vec![38, 2, 1, 2, 3]);
}

#[test]
fn parse_codes_saturates_huge_params() {
    assert_eq!(parse_codes("99999999999"), vec![u32::MAX]);
}

#[test]
fn basic_colors() {
    assert_eq!(sgr(&[31]).fg, Color::Named(1));
    assert_eq!(sgr(&[97]).fg, Color::Named(15));
    assert_eq!(sgr(&[41]).bg, Color::Named(1));
    assert_eq!(sgr(&[107]).bg, Color::Named(15));
    assert_eq!(sgr(&[31, 39]).fg, Color::Default);
    assert_eq!(sgr(&[41, 49]).bg, Color::Default);
}

#[test]
fn attributes_set_and_clear() {
    assert_eq!(sgr(&[1]).attrs, BOLD);
    assert_eq!(sgr(&[2]).attrs, DIM);
    assert_eq!(sgr(&[3]).attrs, ITALIC);
    assert_eq!(sgr(&[4]).attrs, UNDERLINE);
    assert_eq!(sgr(&[5]).attrs, BLINK);
    assert_eq!(sgr(&[7]).attrs, REVERSE);
    assert_eq!(sgr(&[9]).attrs, STRIKE);
    assert_eq!(sgr(&[1, 21]).attrs, 0);
    assert_eq!(sgr(&[3, 23]).attrs, 0);
    assert_eq!(sgr(&[4, 24]).attrs, 0);
    assert_eq!(sgr(&[5, 25]).attrs, 0);
    assert_eq!(sgr(&[7, 27]).attrs, 0);
    assert_eq!(sgr(&[9, 29]).attrs, 0);
    assert_eq!(sgr(&[1, 2, 22]).attrs, 0);
    assert_eq!(sgr(&[6, 8]).attrs, 0);
}

#[test]
fn reset() {
    assert_eq!(sgr(&[31, 41, 1, 0]), Face::default());
    assert_eq!(sgr(&[]), Face::default());
    let mut f = sgr(&[31]);
    f.apply_sgr(&[]);
    assert_eq!(f, Face::default());
}

#[test]
fn truecolor() {
    assert_eq!(sgr(&[38, 2, 253, 17, 129]).fg, Color::Rgb(253, 17, 129));
    assert_eq!(sgr(&[48, 2, 17, 129, 253]).bg, Color::Rgb(17, 129, 253));
}

#[test]
fn truecolor_clamps_components() {
    assert_eq!(sgr(&[38, 2, 300, 1, 2]).fg, Color::Rgb(255, 1, 2));
}

#[test]
fn palette_256() {
    assert_eq!(sgr(&[38, 5, 2]).fg, Color::Named(2));
    assert_eq!(sgr(&[38, 5, 10]).fg, Color::Named(10));
    assert_eq!(sgr(&[38, 5, 121]).fg, Color::Rgb(0x87, 0xFF, 0xAF));
    assert_eq!(sgr(&[38, 5, 239]).fg, Color::Rgb(0x4E, 0x4E, 0x4E));
    assert_eq!(sgr(&[38, 5, 300]).fg, Color::Default);
}

#[test]
fn extended_color_leftover_params_reprocessed() {
    let f = sgr(&[38, 2, 1, 31]);
    assert_eq!(f.fg, Color::Named(1));
    assert_eq!(f.attrs, BOLD);
    assert_eq!(sgr(&[38, 6, 31]).fg, Color::Named(1));
    assert_eq!(sgr(&[38, 5]), Face::default());
    assert_eq!(sgr(&[38]), Face::default());
}

#[test]
fn face_formatting() {
    assert_eq!(Face::default().to_string(), "default");
    assert_eq!(sgr(&[31]).to_string(), "red");
    assert_eq!(sgr(&[92]).to_string(), "bright-green");
    assert_eq!(sgr(&[41]).to_string(), "default,red");
    assert_eq!(sgr(&[31, 42]).to_string(), "red,green");
    assert_eq!(sgr(&[38, 2, 253, 17, 129]).to_string(), "rgb:FD1181");
    assert_eq!(
        sgr(&[1, 2, 3, 4, 5, 7, 9]).to_string(),
        "default+urbBdis"
    );
    assert_eq!(sgr(&[31, 1]).to_string(), "red+b");
    assert_eq!(sgr(&[41, 4]).to_string(), "default,red+u");
}
