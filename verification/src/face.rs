//! Colours and attributes, and the way Kakoune writes them as a face.

use vstd::prelude::*;

verus! {

// Attribute bits: bit `k` belongs to the SGR code `k`.
pub const BOLD: u16 = 0x002;

pub const DIM: u16 = 0x004;

pub const ITALIC: u16 = 0x008;

pub const UNDERLINE: u16 = 0x010;

pub const BLINK: u16 = 0x020;

pub const REVERSE: u16 = 0x080;

pub const STRIKE: u16 = 0x200;

/// Kakoune's names of the sixteen terminal colours.
pub const NAMED: [&'static str; 16] = [
    "black",
    "red",
    "green",
    "yellow",
    "blue",
    "magenta",
    "cyan",
    "white",
    "bright-black",
    "bright-red",
    "bright-green",
    "bright-yellow",
    "bright-blue",
    "bright-magenta",
    "bright-cyan",
    "bright-white",
];

/// A foreground or background colour.
#[derive(Clone, Copy, PartialEq, Eq, Debug, Structural)]
pub enum Color {
    /// What the editor shows where no colour was asked for.
    Default,
    /// One of the sixteen terminal colours, `0` to `15`.
    Named(u8),
    Rgb(u8, u8, u8),
}

/// The upper-case hexadecimal digit with the value `d`.
pub open spec fn hex_digit(d: int) -> char
    recommends
        0 <= d < 16,
{
    if d < 10 {
        ('0' as int + d) as char
    } else {
        ('A' as int + (d - 10)) as char
    }
}

/// The two upper-case hexadecimal digits of `b`.
pub open spec fn hex_byte(b: u8) -> Seq<char> {
    seq![hex_digit(b as int / 16), hex_digit(b as int % 16)]
}

fn push_hex_byte(s: &mut String, b: u8)
    ensures
        final(s)@ == old(s)@ + hex_byte(b),
{
    let high: u8 = b / 16;
    let low: u8 = b % 16;
    let h: u8 = if high < 10 {
        0x30 + high
    } else {
        0x41 + (high - 10)
    };
    let l: u8 = if low < 10 {
        0x30 + low
    } else {
        0x41 + (low - 10)
    };
    s.push(h as char);
    s.push(l as char);
}

impl Default for Color {
    fn default() -> (c: Color)
        ensures
            c == Color::Default,
    {
        Color::Default
    }
}

impl Color {
    /// A named colour is one of the sixteen.
    pub open spec fn wf(self) -> bool {
        match self {
            Color::Named(n) => n < 16,
            _ => true,
        }
    }

    /// The colour as Kakoune writes it.
    pub open spec fn text(self) -> Seq<char> {
        match self {
            Color::Default => "default"@,
            Color::Named(n) => NAMED@[n as int]@,
            Color::Rgb(r, g, b) => "rgb:"@ + hex_byte(r) + hex_byte(g) + hex_byte(b),
        }
    }

    fn push_to(self, s: &mut String)
        requires
            self.wf(),
        ensures
            final(s)@ == old(s)@ + self.text(),
    {
        match self {
            Color::Default => s.append("default"),
            Color::Named(n) => s.append(NAMED[n as usize]),
            Color::Rgb(r, g, b) => {
                s.append("rgb:");
                push_hex_byte(s, r);
                push_hex_byte(s, g);
                push_hex_byte(s, b);
            },
        }
    }

    /// The colour as Kakoune writes it.
    pub fn to_string(&self) -> (s: String)
        requires
            self.wf(),
        ensures
            s@ == self.text(),
    {
        let mut s = String::new();
        self.push_to(&mut s);
        assert(s@ =~= self.text());
        s
    }
}

/// How a character looks: its colours and its attribute bits.
#[derive(Clone, Copy, PartialEq, Eq, Debug, Structural)]
pub struct Face {
    pub fg: Color,
    pub bg: Color,
    pub attrs: u16,
}

/// The letter of an attribute, where its bit is set in `attrs`.
pub open spec fn letter_if(attrs: u16, bit: u16, letter: char) -> Seq<char> {
    if attrs & bit != 0 {
        seq![letter]
    } else {
        seq![]
    }
}

/// The letters of the attributes in `attrs`, in the fixed order `urbBdis`.
pub open spec fn attr_letters(attrs: u16) -> Seq<char> {
    letter_if(attrs, UNDERLINE, 'u') + letter_if(attrs, REVERSE, 'r') + letter_if(attrs, BOLD, 'b')
        + letter_if(attrs, BLINK, 'B') + letter_if(attrs, DIM, 'd') + letter_if(attrs, ITALIC, 'i')
        + letter_if(attrs, STRIKE, 's')
}

fn push_letter_if(s: &mut String, attrs: u16, bit: u16, letter: char)
    ensures
        final(s)@ == old(s)@ + letter_if(attrs, bit, letter),
{
    if attrs & bit != 0 {
        s.push(letter);
    }
}

fn push_attr_letters(s: &mut String, attrs: u16)
    ensures
        final(s)@ == old(s)@ + attr_letters(attrs),
{
    let ghost before = s@;
    push_letter_if(s, attrs, UNDERLINE, 'u');
    let ghost u = letter_if(attrs, UNDERLINE, 'u');
    push_letter_if(s, attrs, REVERSE, 'r');
    let ghost r = u + letter_if(attrs, REVERSE, 'r');
    assert(s@ =~= before + r);
    push_letter_if(s, attrs, BOLD, 'b');
    let ghost b = r + letter_if(attrs, BOLD, 'b');
    assert(s@ =~= before + b);
    push_letter_if(s, attrs, BLINK, 'B');
    let ghost k = b + letter_if(attrs, BLINK, 'B');
    assert(s@ =~= before + k);
    push_letter_if(s, attrs, DIM, 'd');
    let ghost d = k + letter_if(attrs, DIM, 'd');
    assert(s@ =~= before + d);
    push_letter_if(s, attrs, ITALIC, 'i');
    let ghost i = d + letter_if(attrs, ITALIC, 'i');
    assert(s@ =~= before + i);
    push_letter_if(s, attrs, STRIKE, 's');
    assert(s@ =~= before + (i + letter_if(attrs, STRIKE, 's')));
}

impl Default for Face {
    fn default() -> (f: Face)
        ensures
            f == Face::plain(),
    {
        Face { fg: Color::Default, bg: Color::Default, attrs: 0 }
    }
}

impl Face {
    /// The face of text that nothing was said about.
    pub open spec fn plain() -> Face {
        Face { fg: Color::Default, bg: Color::Default, attrs: 0 }
    }

    /// Both colours can be written.
    pub open spec fn wf(self) -> bool {
        self.fg.wf() && self.bg.wf()
    }

    /// The face as Kakoune writes it, `fg[,bg][+attrs]`: the foreground always,
    /// the background where it is not the default, the attributes where there
    /// are any.
    pub open spec fn text(self) -> Seq<char> {
        self.fg.text() + (if self.bg != Color::Default {
            ","@ + self.bg.text()
        } else {
            seq![]
        }) + (if self.attrs != 0 {
            "+"@ + attr_letters(self.attrs)
        } else {
            seq![]
        })
    }

    /// Appends the face as Kakoune writes it.
    pub fn push_to(self, s: &mut String)
        requires
            self.wf(),
        ensures
            final(s)@ == old(s)@ + self.text(),
    {
        self.fg.push_to(s);
        if self.bg != Color::Default {
            s.append(",");
            self.bg.push_to(s);
        }
        if self.attrs != 0 {
            s.append("+");
            push_attr_letters(s, self.attrs);
        }
        assert(s@ =~= old(s)@ + self.text());
    }

    /// The face as Kakoune writes it.
    pub fn to_string(&self) -> (s: String)
        requires
            self.wf(),
        ensures
            s@ == self.text(),
    {
        let mut s = String::new();
        self.push_to(&mut s);
        assert(s@ =~= self.text());
        s
    }
}

/// Only these attribute bits have a letter.
pub const ATTRIBUTES: u16 = 0x2be;

/// A face whose colours and attributes can all be written.
pub open spec fn is_known(face: Face) -> bool {
    face.wf() && face.attrs & !ATTRIBUTES == 0
}

/// A face that can be written shows every attribute: where there are any, the
/// `+` is followed by at least one letter.
pub proof fn law_attributes_have_letters(face: Face)
    requires
        is_known(face),
        face.attrs != 0,
    ensures
        attr_letters(face.attrs).len() > 0,
{
    let a = face.attrs;
    assert(a != 0 && a & !ATTRIBUTES == 0 ==> a & UNDERLINE != 0 || a & REVERSE != 0 || a & BOLD != 0
        || a & BLINK != 0 || a & DIM != 0 || a & ITALIC != 0 || a & STRIKE != 0) by (bit_vector);
}

/// A character that occurs in the text of a colour.
pub open spec fn is_color_char(ch: char) -> bool {
    'a' <= ch <= 'z' || 'A' <= ch <= 'F' || '0' <= ch <= '9' || ch == '-' || ch == ':'
}

/// The sixteen names differ from each other and from the word for the default.
proof fn lemma_names_differ(n: int, m: int)
    requires
        0 <= n < 16,
        0 <= m < 16,
    ensures
        NAMED@[n]@ == NAMED@[m]@ ==> n == m,
        NAMED@[n]@ != "default"@,
        NAMED@[n]@.len() == 10 ==> NAMED@[n]@[0] == 'b',
{
    lemma_name(n);
    lemma_name(m);
    reveal_strlit("default");
}

/// The length and the first character of one of the eight darker names.
spec fn name_key(n: int) -> (nat, char) {
    if n == 0 {
        (5, 'b')
    } else if n == 1 {
        (3, 'r')
    } else if n == 2 {
        (5, 'g')
    } else if n == 3 {
        (6, 'y')
    } else if n == 4 {
        (4, 'b')
    } else if n == 5 {
        (7, 'm')
    } else if n == 6 {
        (4, 'c')
    } else if n == 7 {
        (5, 'w')
    } else {
        (0, ' ')
    }
}

/// What the literals of the names hold.
proof fn lemma_name(n: int)
    requires
        0 <= n < 16,
    ensures
        ({
            let name = NAMED@[n]@;
            if n < 8 {
                name.len() == name_key(n).0 && name[0] == name_key(n).1
            } else {
                name.len() == 7 + name_key(n - 8).0 && name[0] == 'b' && name[7] == name_key(
                    n - 8,
                ).1
            }
        }),
        forall|i: int| 0 <= i < NAMED@[n]@.len() ==> is_color_char(#[trigger] NAMED@[n]@[i]),
{
    reveal_strlit("black");
    reveal_strlit("red");
    reveal_strlit("green");
    reveal_strlit("yellow");
    reveal_strlit("blue");
    reveal_strlit("magenta");
    reveal_strlit("cyan");
    reveal_strlit("white");
    reveal_strlit("bright-black");
    reveal_strlit("bright-red");
    reveal_strlit("bright-green");
    reveal_strlit("bright-yellow");
    reveal_strlit("bright-blue");
    reveal_strlit("bright-magenta");
    reveal_strlit("bright-cyan");
    reveal_strlit("bright-white");
}

/// No two colours are written alike.
pub proof fn law_color_text_is_unique(a: Color, b: Color)
    requires
        a.wf(),
        b.wf(),
        a.text() == b.text(),
    ensures
        a == b,
{
    reveal_strlit("default");
    reveal_strlit("rgb:");
    if let Color::Named(n) = a {
        lemma_names_differ(n as int, 0);
    }
    if let Color::Named(m) = b {
        lemma_names_differ(m as int, 0);
    }
    if let Color::Rgb(r, g, bl) = a {
        assert(a.text().len() == 10 && a.text()[0] == 'r');
    }
    if let Color::Rgb(r, g, bl) = b {
        assert(b.text().len() == 10 && b.text()[0] == 'r');
    }
    match (a, b) {
        (Color::Named(n), Color::Named(m)) => lemma_names_differ(n as int, m as int),
        (Color::Rgb(r, g, bl), Color::Rgb(r2, g2, bl2)) => {
            let t = a.text();
            let u = b.text();
            assert(t.subrange(4, 6) =~= hex_byte(r) && u.subrange(4, 6) =~= hex_byte(r2));
            assert(t.subrange(6, 8) =~= hex_byte(g) && u.subrange(6, 8) =~= hex_byte(g2));
            assert(t.subrange(8, 10) =~= hex_byte(bl) && u.subrange(8, 10) =~= hex_byte(bl2));
            lemma_hex_byte_is_unique(r, r2);
            lemma_hex_byte_is_unique(g, g2);
            lemma_hex_byte_is_unique(bl, bl2);
        },
        _ => {},
    }
}

proof fn lemma_hex_byte_is_unique(a: u8, b: u8)
    ensures
        hex_byte(a) == hex_byte(b) ==> a == b,
{
    if hex_byte(a) == hex_byte(b) {
        assert(hex_byte(a)[0] == hex_byte(b)[0]);
        assert(hex_byte(a)[1] == hex_byte(b)[1]);
    }
}

/// A colour is written with letters, digits, `-` and `:` alone.
pub proof fn lemma_color_text_chars(color: Color)
    requires
        color.wf(),
    ensures
        forall|i: int| 0 <= i < color.text().len() ==> is_color_char(#[trigger] color.text()[i]),
{
    reveal_strlit("default");
    reveal_strlit("rgb:");
    if let Color::Named(n) = color {
        lemma_name(n as int);
    }
}

/// A colour ends where something follows that is in no colour.
proof fn lemma_color_ends(a: Color, x: Seq<char>, b: Color, y: Seq<char>)
    requires
        a.wf(),
        b.wf(),
        x.len() > 0 ==> !is_color_char(x[0]),
        y.len() > 0 ==> !is_color_char(y[0]),
        a.text() + x == b.text() + y,
    ensures
        a == b,
        x == y,
{
    let s = a.text() + x;
    let t = b.text() + y;
    let n = a.text().len() as int;
    let m = b.text().len() as int;
    lemma_color_text_chars(a);
    lemma_color_text_chars(b);
    if n < m {
        assert(is_color_char(b.text()[n]));
        assert(t[n] == b.text()[n]);
        assert(x.len() > 0);
        assert(s[n] == x[0]);
    } else if m < n {
        assert(is_color_char(a.text()[m]));
        assert(s[m] == a.text()[m]);
        assert(y.len() > 0);
        assert(t[m] == y[0]);
    }
    assert(a.text() =~= s.take(n) && b.text() =~= t.take(n));
    assert(x =~= s.skip(n) && y =~= t.skip(n));
    law_color_text_is_unique(a, b);
}

/// The letters show which attributes are set.
proof fn lemma_letters_show_bits(attrs: u16, c: char)
    ensures
        attr_letters(attrs).contains(c) == {
            ||| c == 'u' && attrs & UNDERLINE != 0
            ||| c == 'r' && attrs & REVERSE != 0
            ||| c == 'b' && attrs & BOLD != 0
            ||| c == 'B' && attrs & BLINK != 0
            ||| c == 'd' && attrs & DIM != 0
            ||| c == 'i' && attrs & ITALIC != 0
            ||| c == 's' && attrs & STRIKE != 0
        },
{
    let u = letter_if(attrs, UNDERLINE, 'u');
    let r = letter_if(attrs, REVERSE, 'r');
    let b = letter_if(attrs, BOLD, 'b');
    let k = letter_if(attrs, BLINK, 'B');
    let d = letter_if(attrs, DIM, 'd');
    let i = letter_if(attrs, ITALIC, 'i');
    let s = letter_if(attrs, STRIKE, 's');
    lemma_contains_concat(u, r, c);
    lemma_contains_concat(u + r, b, c);
    lemma_contains_concat(u + r + b, k, c);
    lemma_contains_concat(u + r + b + k, d, c);
    lemma_contains_concat(u + r + b + k + d, i, c);
    lemma_contains_concat(u + r + b + k + d + i, s, c);
    lemma_letter_if(attrs, UNDERLINE, 'u', c);
    lemma_letter_if(attrs, REVERSE, 'r', c);
    lemma_letter_if(attrs, BOLD, 'b', c);
    lemma_letter_if(attrs, BLINK, 'B', c);
    lemma_letter_if(attrs, DIM, 'd', c);
    lemma_letter_if(attrs, ITALIC, 'i', c);
    lemma_letter_if(attrs, STRIKE, 's', c);
}

proof fn lemma_letter_if(attrs: u16, bit: u16, letter: char, c: char)
    ensures
        letter_if(attrs, bit, letter).contains(c) == (attrs & bit != 0 && c == letter),
{
    if attrs & bit != 0 {
        assert(letter_if(attrs, bit, letter)[0] == letter);
    }
}

proof fn lemma_contains_concat(a: Seq<char>, b: Seq<char>, c: char)
    ensures
        (a + b).contains(c) == (a.contains(c) || b.contains(c)),
{
    if a.contains(c) {
        let i = choose|i: int| 0 <= i < a.len() && a[i] == c;
        assert((a + b)[i] == c);
    }
    if b.contains(c) {
        let i = choose|i: int| 0 <= i < b.len() && b[i] == c;
        assert((a + b)[a.len() + i] == c);
    }
}

/// Attributes that all have a letter are written differently if they differ.
proof fn lemma_letters_are_unique(a: u16, b: u16)
    requires
        a & !ATTRIBUTES == 0,
        b & !ATTRIBUTES == 0,
        attr_letters(a) == attr_letters(b),
    ensures
        a == b,
{
    lemma_letters_show_bits(a, 'u');
    lemma_letters_show_bits(b, 'u');
    lemma_letters_show_bits(a, 'r');
    lemma_letters_show_bits(b, 'r');
    lemma_letters_show_bits(a, 'b');
    lemma_letters_show_bits(b, 'b');
    lemma_letters_show_bits(a, 'B');
    lemma_letters_show_bits(b, 'B');
    lemma_letters_show_bits(a, 'd');
    lemma_letters_show_bits(b, 'd');
    lemma_letters_show_bits(a, 'i');
    lemma_letters_show_bits(b, 'i');
    lemma_letters_show_bits(a, 's');
    lemma_letters_show_bits(b, 's');
    assert(a & !ATTRIBUTES == 0 && b & !ATTRIBUTES == 0 && (a & UNDERLINE != 0) == (b & UNDERLINE
        != 0) && (a & REVERSE != 0) == (b & REVERSE != 0) && (a & BOLD != 0) == (b & BOLD != 0) && (a
        & BLINK != 0) == (b & BLINK != 0) && (a & DIM != 0) == (b & DIM != 0) && (a & ITALIC != 0)
        == (b & ITALIC != 0) && (a & STRIKE != 0) == (b & STRIKE != 0) ==> a == b) by (bit_vector);
}

/// What stands behind the foreground in the text of a face.
spec fn bg_text(face: Face) -> Seq<char> {
    if face.bg != Color::Default {
        ","@ + face.bg.text()
    } else {
        seq![]
    }
}

/// What stands behind the colours in the text of a face.
spec fn attrs_text(face: Face) -> Seq<char> {
    if face.attrs != 0 {
        "+"@ + attr_letters(face.attrs)
    } else {
        seq![]
    }
}

/// No two faces that can be written are written alike.
pub proof fn law_face_text_is_unique(a: Face, b: Face)
    requires
        is_known(a),
        is_known(b),
        a.text() == b.text(),
    ensures
        a == b,
{
    reveal_strlit(",");
    reveal_strlit("+");
    let (x, y) = (bg_text(a) + attrs_text(a), bg_text(b) + attrs_text(b));
    assert(a.text() =~= a.fg.text() + x);
    assert(b.text() =~= b.fg.text() + y);
    lemma_color_ends(a.fg, x, b.fg, y);
    assert(x.len() > 0 ==> (x[0] == ',' <==> a.bg != Color::Default));
    assert(y.len() > 0 ==> (y[0] == ',' <==> b.bg != Color::Default));
    if a.bg != Color::Default {
        assert(x.skip(1) =~= a.bg.text() + attrs_text(a));
        assert(y.skip(1) =~= b.bg.text() + attrs_text(b));
        lemma_color_ends(a.bg, attrs_text(a), b.bg, attrs_text(b));
    } else {
        assert(b.bg == Color::Default);
        assert(x =~= attrs_text(a) && y =~= attrs_text(b));
    }
    if a.attrs != 0 {
        assert(attrs_text(a).skip(1) =~= attr_letters(a.attrs));
        assert(attrs_text(b).skip(1) =~= attr_letters(b.attrs));
        lemma_letters_are_unique(a.attrs, b.attrs);
    }
}

/// The text of a named colour is the word for that terminal colour, for each of the
/// eight, and the same behind `bright-` for the eight brighter ones. The colour
/// that nothing was said about is `default`.
pub proof fn law_color_names(n: u8)
    requires
        n < 8,
    ensures
        Color::Named(0).text() == "black"@,
        Color::Named(1).text() == "red"@,
        Color::Named(2).text() == "green"@,
        Color::Named(3).text() == "yellow"@,
        Color::Named(4).text() == "blue"@,
        Color::Named(5).text() == "magenta"@,
        Color::Named(6).text() == "cyan"@,
        Color::Named(7).text() == "white"@,
        Color::Named((n + 8) as u8).text() == "bright-"@ + Color::Named(n).text(),
        Color::Default.text() == "default"@,
{
    reveal_strlit("bright-");
    reveal_strlit("black");
    reveal_strlit("red");
    reveal_strlit("green");
    reveal_strlit("yellow");
    reveal_strlit("blue");
    reveal_strlit("magenta");
    reveal_strlit("cyan");
    reveal_strlit("white");
    reveal_strlit("bright-black");
    reveal_strlit("bright-red");
    reveal_strlit("bright-green");
    reveal_strlit("bright-yellow");
    reveal_strlit("bright-blue");
    reveal_strlit("bright-magenta");
    reveal_strlit("bright-cyan");
    reveal_strlit("bright-white");
}

/// Any other colour is `rgb:` and two upper-case hexadecimal digits each for red,
/// green and blue, the more significant one first.
pub proof fn law_rgb_text(r: u8, g: u8, b: u8)
    ensures
        ({
            let text = Color::Rgb(r, g, b).text();
            let hex = "0123456789ABCDEF"@;
            &&& text.len() == 10
            &&& text.take(4) == "rgb:"@
            &&& text[4] == hex[r as int / 16] && text[5] == hex[r as int % 16]
            &&& text[6] == hex[g as int / 16] && text[7] == hex[g as int % 16]
            &&& text[8] == hex[b as int / 16] && text[9] == hex[b as int % 16]
        }),
{
    reveal_strlit("rgb:");
    reveal_strlit("0123456789ABCDEF");
    lemma_hex_digit(r as int / 16);
    lemma_hex_digit(r as int % 16);
    lemma_hex_digit(g as int / 16);
    lemma_hex_digit(g as int % 16);
    lemma_hex_digit(b as int / 16);
    lemma_hex_digit(b as int % 16);
}

proof fn lemma_hex_digit(d: int)
    requires
        0 <= d < 16,
    ensures
        hex_digit(d) == "0123456789ABCDEF"@[d],
{
    reveal_strlit("0123456789ABCDEF");
}

/// The text of a face begins with its foreground. The background follows behind a
/// comma unless it is the default one, and then, behind a `+`, the attributes if
/// there are any; what stands before the `+` does not depend on them.
pub proof fn law_face_text(fg: Color, bg: Color, attrs: u16)
    ensures
        ({
            let text = Face { fg, bg, attrs }.text();
            let colors = Face { fg, bg, attrs: 0 }.text();
            &&& bg == Color::Default ==> colors == fg.text()
            &&& bg != Color::Default ==> colors == fg.text() + seq![','] + bg.text()
            &&& attrs != 0 ==> text.len() > colors.len() && text.take(colors.len() as int) == colors
                && text[colors.len() as int] == '+'
        }),
{
    reveal_strlit(",");
    reveal_strlit("+");
    let colors = Face { fg, bg, attrs: 0 }.text();
    if bg == Color::Default {
        assert(colors =~= fg.text());
    } else {
        assert(colors =~= fg.text() + seq![','] + bg.text());
    }
    if attrs != 0 {
        let text = Face { fg, bg, attrs }.text();
        assert(text =~= colors + ("+"@ + attr_letters(attrs)));
        assert(text.take(colors.len() as int) =~= colors);
    }
}

/// Behind the `+` of a face stand letters of `urbBdis` in that order, each of them
/// once at most, and exactly those whose attribute is set: underline, reverse, bold,
/// blink, dim, italic and strike.
pub proof fn law_face_attributes(fg: Color, bg: Color, attrs: u16)
    requires
        attrs != 0,
    ensures
        ({
            let before = Face { fg, bg, attrs: 0 }.text().len() + 1;
            let letters = Face { fg, bg, attrs }.text().skip(before as int);
            let order = "urbBdis"@;
            &&& letters.contains('u') <==> attrs & 0x010 != 0
            &&& letters.contains('r') <==> attrs & 0x080 != 0
            &&& letters.contains('b') <==> attrs & 0x002 != 0
            &&& letters.contains('B') <==> attrs & 0x020 != 0
            &&& letters.contains('d') <==> attrs & 0x004 != 0
            &&& letters.contains('i') <==> attrs & 0x008 != 0
            &&& letters.contains('s') <==> attrs & 0x200 != 0
            &&& forall|i: int| 0 <= i < letters.len() ==> order.contains(#[trigger] letters[i])
            &&& forall|i: int, j: int|
                0 <= i < j < letters.len() ==> order.index_of(#[trigger] letters[i])
                    < order.index_of(#[trigger] letters[j])
        }),
{
    reveal_strlit("+");
    let colors = Face { fg, bg, attrs: 0 }.text();
    let text = Face { fg, bg, attrs }.text();
    let letters = attr_letters(attrs);
    assert(text =~= colors + ("+"@ + letters));
    assert(text.skip(colors.len() as int + 1) =~= letters);
    lemma_letters_in_order(attrs);
    let order = "urbBdis"@;
    assert forall|i: int| 0 <= i < letters.len() implies order.contains(#[trigger] letters[i]) by {
        lemma_letter_place(letters[i]);
    }
    assert forall|i: int, j: int| 0 <= i < j < letters.len() implies order.index_of(
        #[trigger] letters[i],
    ) < order.index_of(#[trigger] letters[j]) by {
        lemma_letter_place(letters[i]);
        lemma_letter_place(letters[j]);
    }
}

proof fn lemma_letter_place(ch: char)
    requires
        0 <= letter_place(ch) < 7,
    ensures
        "urbBdis"@.contains(ch),
        "urbBdis"@.index_of(ch) == letter_place(ch),
{
    reveal_strlit("urbBdis");
    assert("urbBdis"@[letter_place(ch)] == ch);
}

/// Where a letter stands in `urbBdis`.
spec fn letter_place(ch: char) -> int {
    if ch == 'u' {
        0
    } else if ch == 'r' {
        1
    } else if ch == 'b' {
        2
    } else if ch == 'B' {
        3
    } else if ch == 'd' {
        4
    } else if ch == 'i' {
        5
    } else if ch == 's' {
        6
    } else {
        7
    }
}

/// Letters that stand in order, all of them before place `n`.
spec fn in_order(letters: Seq<char>, n: int) -> bool {
    &&& forall|i: int| 0 <= i < letters.len() ==> 0 <= letter_place(#[trigger] letters[i]) < n
    &&& forall|i: int, j: int|
        0 <= i < j < letters.len() ==> letter_place(#[trigger] letters[i]) < letter_place(
            #[trigger] letters[j],
        )
}

/// One more letter at its place keeps the order, and only that letter is new.
proof fn lemma_letter_at_place(letters: Seq<char>, n: int, attrs: u16, bit: u16, letter: char)
    requires
        in_order(letters, n),
        letter_place(letter) == n,
    ensures
        in_order(letters + letter_if(attrs, bit, letter), n + 1),
        forall|ch: char| #[trigger]
            (letters + letter_if(attrs, bit, letter)).contains(ch) <==> letters.contains(ch) || (ch
                == letter && attrs & bit != 0),
{
    let more = letters + letter_if(attrs, bit, letter);
    assert forall|ch: char| #[trigger] more.contains(ch) <==> letters.contains(ch) || (ch == letter
        && attrs & bit != 0) by {
        if letters.contains(ch) {
            let i = letters.index_of(ch);
            assert(more[i] == ch);
        }
        if attrs & bit != 0 {
            assert(more[letters.len() as int] == letter);
        }
        if more.contains(ch) {
            let i = more.index_of(ch);
            if i < letters.len() {
                assert(letters[i] == ch);
            }
        }
    }
}

proof fn lemma_letters_in_order(attrs: u16)
    ensures
        in_order(attr_letters(attrs), 7),
        attr_letters(attrs).contains('u') <==> attrs & 0x010 != 0,
        attr_letters(attrs).contains('r') <==> attrs & 0x080 != 0,
        attr_letters(attrs).contains('b') <==> attrs & 0x002 != 0,
        attr_letters(attrs).contains('B') <==> attrs & 0x020 != 0,
        attr_letters(attrs).contains('d') <==> attrs & 0x004 != 0,
        attr_letters(attrs).contains('i') <==> attrs & 0x008 != 0,
        attr_letters(attrs).contains('s') <==> attrs & 0x200 != 0,
{
    let none = Seq::<char>::empty();
    let u = letter_if(attrs, UNDERLINE, 'u');
    let r = u + letter_if(attrs, REVERSE, 'r');
    let b = r + letter_if(attrs, BOLD, 'b');
    let k = b + letter_if(attrs, BLINK, 'B');
    let d = k + letter_if(attrs, DIM, 'd');
    let i = d + letter_if(attrs, ITALIC, 'i');
    assert(none + u =~= u);
    lemma_letter_at_place(none, 0, attrs, UNDERLINE, 'u');
    lemma_letter_at_place(u, 1, attrs, REVERSE, 'r');
    lemma_letter_at_place(r, 2, attrs, BOLD, 'b');
    lemma_letter_at_place(b, 3, attrs, BLINK, 'B');
    lemma_letter_at_place(k, 4, attrs, DIM, 'd');
    lemma_letter_at_place(d, 5, attrs, ITALIC, 'i');
    lemma_letter_at_place(i, 6, attrs, STRIKE, 's');
}

} // verus!
