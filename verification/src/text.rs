//! Characters, decimal numbers and the strings they are written into.

use vstd::arithmetic::div_mod::lemma_div_denominator;
use vstd::arithmetic::power::{lemma_pow_positive, pow};
use vstd::prelude::*;

verus! {

/// `String::push`: the string grows by `ch` at its end and keeps all it held.
pub assume_specification[ String::push ](s: &mut String, ch: char)
    ensures
        final(s)@ == old(s)@.push(ch),
;

/// The characters of `s`, in order.
pub fn chars_of(s: &str) -> (chars: Vec<char>)
    ensures
        chars@ == s@,
{
    let mut chars: Vec<char> = Vec::new();
    for ch in it: s.chars()
        invariant
            it.seq() == s@,
            chars@ == s@.take(it.index() as int),
    {
        chars.push(ch);
    }
    chars
}

/// `ch` is one of `0` to `9`.
pub open spec fn is_digit(ch: char) -> bool {
    '0' <= ch <= '9'
}

/// The value of the digit `ch`.
pub open spec fn digit_value(ch: char) -> nat
    recommends
        is_digit(ch),
{
    (ch as int - '0' as int) as nat
}

/// The digit whose value is `d`.
pub open spec fn digit_char(d: nat) -> char
    recommends
        d < 10,
{
    ('0' as int + d) as char
}

/// Every character of `s` is a digit.
pub open spec fn all_digits(s: Seq<char>) -> bool {
    forall|i: int| 0 <= i < s.len() ==> is_digit(#[trigger] s[i])
}

/// The number that the digits of `s` spell in base ten.
pub open spec fn decimal_value(s: Seq<char>) -> nat
    decreases s.len(),
{
    if s.len() == 0 {
        0
    } else {
        10 * decimal_value(s.drop_last()) + digit_value(s.last())
    }
}

/// `v`, or the largest `u32` where `v` is larger than that.
pub open spec fn saturate(v: nat) -> u32 {
    if v <= u32::MAX {
        v as u32
    } else {
        u32::MAX
    }
}

/// The digits of `n` in base ten, without leading zeros.
pub open spec fn decimal(n: nat) -> Seq<char>
    decreases n,
{
    if n < 10 {
        seq![digit_char(n)]
    } else {
        decimal(n / 10).push(digit_char(n % 10))
    }
}

/// The decimal text of the integer `n`, with a `-` in front of a negative one.
pub open spec fn signed_decimal(n: int) -> Seq<char> {
    if n < 0 {
        seq!['-'] + decimal((-n) as nat)
    } else {
        decimal(n as nat)
    }
}

/// The integer that `s` spells: an optional sign, at least one digit and
/// nothing else, with a value that an `i32` can hold.
pub open spec fn integer_of(s: Seq<char>) -> Option<i32> {
    let negative = s.len() > 0 && s[0] == '-';
    let signed = negative || (s.len() > 0 && s[0] == '+');
    let digits = if signed {
        s.skip(1)
    } else {
        s
    };
    let v = if negative {
        -(decimal_value(digits) as int)
    } else {
        decimal_value(digits) as int
    };
    if digits.len() > 0 && all_digits(digits) && i32::MIN <= v <= i32::MAX {
        Some(v as i32)
    } else {
        None
    }
}

/// Whether `ch` is one of `0` to `9`.
pub fn is_ascii_digit(ch: char) -> (b: bool)
    ensures
        b == is_digit(ch),
{
    '0' <= ch && ch <= '9'
}

/// Reads the digits `chars[from..to]` as a number, which stops growing at
/// `u32::MAX`.
pub fn saturating_number(chars: &Vec<char>, from: usize, to: usize) -> (n: u32)
    requires
        from <= to <= chars@.len(),
        all_digits(chars@.subrange(from as int, to as int)),
    ensures
        n == saturate(decimal_value(chars@.subrange(from as int, to as int))),
{
    let mut n: u32 = 0;
    let mut i: usize = from;
    while i < to
        invariant
            from <= i <= to <= chars@.len(),
            all_digits(chars@.subrange(from as int, to as int)),
            n == saturate(decimal_value(chars@.subrange(from as int, i as int))),
        decreases to - i,
    {
        assert(chars@.subrange(from as int, to as int)[i - from] == chars@[i as int]);
        let d: u32 = chars[i] as u32 - '0' as u32;
        let wide: u64 = n as u64 * 10 + d as u64;
        n = if wide <= u32::MAX as u64 {
            wide as u32
        } else {
            u32::MAX
        };
        assert(chars@.subrange(from as int, i + 1).drop_last() =~= chars@.subrange(
            from as int,
            i as int,
        ));
        i += 1;
    }
    n
}

/// Reads `chars[from..to]` as an integer.
pub fn parse_integer(chars: &Vec<char>, from: usize, to: usize) -> (r: Option<i32>)
    requires
        from <= to <= chars@.len(),
    ensures
        r == integer_of(chars@.subrange(from as int, to as int)),
{
    let ghost s = chars@.subrange(from as int, to as int);
    let negative = from < to && chars[from] == '-';
    let signed = negative || (from < to && chars[from] == '+');
    let first: usize = if signed {
        from + 1
    } else {
        from
    };
    let ghost digits = if signed {
        s.skip(1)
    } else {
        s
    };
    assert(digits =~= chars@.subrange(first as int, to as int));
    if first == to {
        return None;
    }
    let mut i: usize = first;
    while i < to
        invariant
            from <= first <= i <= to <= chars@.len(),
            s == chars@.subrange(from as int, to as int),
            digits == chars@.subrange(first as int, to as int),
            forall|k: int| 0 <= k < i - first ==> is_digit(#[trigger] digits[k]),
            signed == (s.len() > 0 && (s[0] == '-' || s[0] == '+')),
            digits == (if signed {
                s.skip(1)
            } else {
                s
            }),
        decreases to - i,
    {
        if !is_ascii_digit(chars[i]) {
            assert(!is_digit(digits[i - first]));
            return None;
        }
        i += 1;
    }
    let n: i64 = saturating_number(chars, first, to) as i64;
    let v: i64 = if negative {
        -n
    } else {
        n
    };
    if i32::MIN as i64 <= v && v <= i32::MAX as i64 {
        Some(v as i32)
    } else {
        None
    }
}

/// Appends the decimal text of `n`.
fn push_decimal(s: &mut String, n: u32)
    ensures
        final(s)@ == old(s)@ + decimal(n as nat),
    decreases n,
{
    if n >= 10 {
        push_decimal(s, n / 10);
    }
    let d: u8 = 0x30 + (n % 10) as u8;
    s.push(d as char);
}

/// Appends the decimal text of `n`, with a `-` in front of a negative one.
pub fn push_integer(s: &mut String, n: i32)
    ensures
        final(s)@ == old(s)@ + signed_decimal(n as int),
{
    if n < 0 {
        s.push('-');
        push_decimal(s, (-(n as i64)) as u32);
    } else {
        push_decimal(s, n as u32);
    }
}

/// The decimal text of a number is made of digits and spells that number.
proof fn lemma_decimal_value(n: nat)
    ensures
        decimal(n).len() > 0,
        all_digits(decimal(n)),
        decimal_value(decimal(n)) == n,
    decreases n,
{
    reveal_with_fuel(decimal_value, 2);
    if n >= 10 {
        lemma_decimal_value(n / 10);
        assert(decimal(n).drop_last() =~= decimal(n / 10));
    } else {
        assert(decimal(n).drop_last() =~= Seq::<char>::empty());
    }
}

/// The text of an integer is made of digits and `-`.
pub proof fn lemma_signed_decimal_chars(n: int)
    ensures
        forall|i: int|
            0 <= i < signed_decimal(n).len() ==> is_digit(#[trigger] signed_decimal(n)[i])
                || signed_decimal(n)[i] == '-',
{
    if n < 0 {
        lemma_decimal_value((-n) as nat);
        assert forall|i: int| 0 <= i < signed_decimal(n).len() implies is_digit(
            #[trigger] signed_decimal(n)[i],
        ) || signed_decimal(n)[i] == '-' by {
            if i > 0 {
                assert(signed_decimal(n)[i] == decimal((-n) as nat)[i - 1]);
            }
        }
    } else {
        lemma_decimal_value(n as nat);
    }
}

/// Reading undoes writing: the decimal text of an `i32` spells that `i32`.
pub proof fn law_integer_round_trip(n: i32)
    ensures
        integer_of(signed_decimal(n as int)) == Some(n),
{
    let s = signed_decimal(n as int);
    if n < 0 {
        lemma_decimal_value((-(n as int)) as nat);
        assert(s.skip(1) =~= decimal((-(n as int)) as nat));
    } else {
        lemma_decimal_value(n as nat);
        assert(is_digit(s[0]));
    }
}

/// The decimal text of a number shows its digits in base ten, the last one first:
/// digit `k` from the right is what is left of the `10^k`s, and there are no more
/// digits than it takes.
pub proof fn law_decimal_digits(n: nat, k: int)
    ensures
        decimal(n).len() > 0,
        n < pow(10, decimal(n).len()),
        decimal(n).len() > 1 ==> pow(10, (decimal(n).len() - 1) as nat) <= n,
        0 <= k < decimal(n).len() ==> decimal(n)[decimal(n).len() - 1 - k] == "0123456789"@[(n as int
            / pow(10, k as nat)) % 10],
    decreases n,
{
    reveal_strlit("0123456789");
    reveal_with_fuel(pow, 2);
    let len = decimal(n).len();
    if n >= 10 {
        let tens = n / 10;
        law_decimal_digits(tens, k - 1);
        assert(pow(10, len) == 10 * pow(10, (len - 1) as nat));
        if len > 2 {
            assert(pow(10, (len - 1) as nat) == 10 * pow(10, (len - 2) as nat));
        }
        if 0 < k < len {
            let p = pow(10, (k - 1) as nat);
            lemma_pow_positive(10, (k - 1) as nat);
            assert(pow(10, k as nat) == 10 * p);
            lemma_div_denominator(n as int, 10, p);
            assert(decimal(n)[len - 1 - k] == decimal(tens)[decimal(tens).len() - 1 - (k - 1)]);
        }
    }
    if k == 0 {
        assert(pow(10, 0) == 1);
        assert(n as int / 1 == n);
        let d = (n % 10) as int;
        assert(decimal(n)[len - 1] == digit_char((n % 10) as nat));
        assert("0123456789"@[d] == digit_char((n % 10) as nat));
    }
}

/// An integer is written as its digits, behind a `-` where it is below zero.
pub proof fn law_signed_decimal(n: nat)
    ensures
        signed_decimal(n as int) == decimal(n),
        n > 0 ==> signed_decimal(-(n as int)) == seq!['-'] + decimal(n),
{
}

/// What spells an integer is made of digits, and there is at least one, with
/// nothing else but a sign in front.
pub proof fn law_integer_shape(s: Seq<char>)
    requires
        integer_of(s) is Some,
    ensures
        s.len() > 0,
        '0' <= s.last() <= '9',
        '0' <= s[0] <= '9' || s[0] == '-' || s[0] == '+',
        forall|i: int| 0 < i < s.len() ==> '0' <= #[trigger] s[i] <= '9',
{
    let signed = s.len() > 0 && (s[0] == '-' || s[0] == '+');
    let digits = if signed {
        s.skip(1)
    } else {
        s
    };
    assert(is_digit(digits[digits.len() - 1]));
    assert forall|i: int| 0 < i < s.len() implies '0' <= #[trigger] s[i] <= '9' by {
        assert(is_digit(digits[if signed {
            i - 1
        } else {
            i
        }]));
    }
    assert(!signed ==> is_digit(digits[0]));
}

/// A digit spells its value, with a `-` in front the negative of it; a `+` makes no
/// difference.
pub proof fn law_integer_of_digit(c: char)
    requires
        '0' <= c <= '9',
    ensures
        integer_of(seq![c]) == Some((c as int - 48) as i32),
        integer_of(seq!['+', c]) == Some((c as int - 48) as i32),
        integer_of(seq!['-', c]) == Some((48 - c as int) as i32),
{
    reveal_with_fuel(decimal_value, 2);
    let s = seq![c];
    assert(s.drop_last() =~= Seq::<char>::empty());
    assert(seq!['+', c].skip(1) =~= s);
    assert(seq!['-', c].skip(1) =~= s);
    assert(all_digits(s));
}

/// One more digit makes ten times as much, and the digit: away from zero on the side
/// that the sign says. Where the result is too large nothing is spelled, and no
/// further digit changes that.
pub proof fn law_integer_of_more_digits(s: Seq<char>, c: char)
    requires
        s.len() > 0,
        '0' <= s.last() <= '9',
        '0' <= c <= '9',
    ensures
        match integer_of(s) {
            Some(v) => {
                let w = if s[0] == '-' {
                    10 * v - (c as int - 48)
                } else {
                    10 * v + (c as int - 48)
                };
                integer_of(s.push(c)) == (if -2147483648 <= w <= 2147483647 {
                    Some(w as i32)
                } else {
                    None
                })
            },
            None => integer_of(s.push(c)) is None,
        },
{
    let t = s.push(c);
    let signed = s[0] == '-' || s[0] == '+';
    assert(t[0] == s[0]);
    let ds = if signed {
        s.skip(1)
    } else {
        s
    };
    let dt = if signed {
        t.skip(1)
    } else {
        t
    };
    assert(dt =~= ds.push(c));
    assert(dt.drop_last() =~= ds);
    assert(ds.len() > 0);
    if all_digits(ds) {
        assert forall|i: int| 0 <= i < dt.len() implies is_digit(#[trigger] dt[i]) by {
            if i < ds.len() {
                assert(dt[i] == ds[i]);
            }
        }
    } else {
        let i = choose|i: int| 0 <= i < ds.len() && !is_digit(#[trigger] ds[i]);
        assert(!is_digit(dt[i]));
    }
}

} // verus!
