//! Window accent colours, written `#rgb` or `#rrggbb`.

use crate::text::{chars_of, owned};
use vstd::prelude::*;

verus! {

/// An sRGB colour.
#[derive(Debug, Clone, Copy, PartialEq, Eq, Structural)]
pub struct Colour {
    pub r: u8,
    pub g: u8,
    pub b: u8,
}

/// Why a text is not a colour. Each variant carries the text.
#[derive(Debug, Clone, PartialEq)]
pub enum ColourError {
    /// It does not start with `#`.
    NoHash(String),
    /// What follows the `#` is neither three nor six bytes long.
    BadLength(String),
    /// What follows the `#` has the right length and is not hexadecimal.
    BadDigit(String),
}

/// A [`ColourError`] with the text as a sequence.
pub ghost enum ColourErrorView {
    NoHash(Seq<char>),
    BadLength(Seq<char>),
    BadDigit(Seq<char>),
}

impl View for ColourError {
    type V = ColourErrorView;

    open spec fn view(&self) -> ColourErrorView {
        match self {
            ColourError::NoHash(s) => ColourErrorView::NoHash(s@),
            ColourError::BadLength(s) => ColourErrorView::BadLength(s@),
            ColourError::BadDigit(s) => ColourErrorView::BadDigit(s@),
        }
    }
}

/// The number of bytes that UTF-8 uses for `c`.
pub open spec fn char_width(c: char) -> nat {
    if (c as int) < 0x80 {
        1
    } else if (c as int) < 0x800 {
        2
    } else if (c as int) < 0x10000 {
        3
    } else {
        4
    }
}

/// The number of bytes that UTF-8 uses for `s`.
pub open spec fn byte_len(s: Seq<char>) -> nat
    decreases s.len(),
{
    if s.len() == 0 {
        0
    } else {
        byte_len(s.drop_last()) + char_width(s.last())
    }
}

/// The value of a hexadecimal digit of either case.
pub open spec fn digit_value(c: char) -> Option<int> {
    if '0' <= c <= '9' {
        Some(c as int - '0' as int)
    } else if 'a' <= c <= 'f' {
        Some(c as int - 'a' as int + 10)
    } else if 'A' <= c <= 'F' {
        Some(c as int - 'A' as int + 10)
    } else {
        None
    }
}

/// The value of two hexadecimal digits.
pub open spec fn pair_value(hi: char, lo: char) -> Option<int> {
    match (digit_value(hi), digit_value(lo)) {
        (Some(a), Some(b)) => Some(16 * a + b),
        _ => None,
    }
}

/// The colour of three parsed components, where all of them are there.
pub open spec fn of_components(r: Option<int>, g: Option<int>, b: Option<int>) -> Option<Colour> {
    match (r, g, b) {
        (Some(x), Some(y), Some(z)) => Some(Colour { r: x as u8, g: y as u8, b: z as u8 }),
        _ => None,
    }
}

/// The colour that the digits after the `#` stand for: three digits, each
/// doubled, or three pairs of digits.
pub open spec fn digits_colour(rest: Seq<char>) -> Option<Colour> {
    if rest.len() == 3 {
        of_components(
            match digit_value(rest[0]) {
                Some(d) => Some(17 * d),
                None => None,
            },
            match digit_value(rest[1]) {
                Some(d) => Some(17 * d),
                None => None,
            },
            match digit_value(rest[2]) {
                Some(d) => Some(17 * d),
                None => None,
            },
        )
    } else if rest.len() == 6 {
        of_components(
            pair_value(rest[0], rest[1]),
            pair_value(rest[2], rest[3]),
            pair_value(rest[4], rest[5]),
        )
    } else {
        None
    }
}

/// What [`Colour::parse`] makes of `s`.
pub open spec fn parsed(s: Seq<char>) -> Result<Colour, ColourErrorView> {
    if s.len() == 0 || s[0] != '#' {
        Err(ColourErrorView::NoHash(s))
    } else if byte_len(s.skip(1)) != 3 && byte_len(s.skip(1)) != 6 {
        Err(ColourErrorView::BadLength(s))
    } else {
        match digits_colour(s.skip(1)) {
            Some(c) => Ok(c),
            None => Err(ColourErrorView::BadDigit(s)),
        }
    }
}

/// The lower-case hexadecimal digit of a value below sixteen.
pub open spec fn hex_digit(v: int) -> char {
    if v < 10 {
        ('0' as int + v) as char
    } else {
        ('a' as int + (v - 10)) as char
    }
}

/// The `#rrggbb` form of a colour, in lower case.
pub open spec fn hex_text(c: Colour) -> Seq<char> {
    seq![
        '#',
        hex_digit(c.r as int / 16),
        hex_digit(c.r as int % 16),
        hex_digit(c.g as int / 16),
        hex_digit(c.g as int % 16),
        hex_digit(c.b as int / 16),
        hex_digit(c.b as int % 16),
    ]
}

/// A text is at least as many bytes long as it has characters.
pub proof fn lemma_byte_len_bounds(s: Seq<char>)
    ensures
        s.len() <= byte_len(s) <= 4 * s.len(),
    decreases s.len(),
{
    if s.len() > 0 {
        lemma_byte_len_bounds(s.drop_last());
    }
}

/// A text whose characters are all one byte wide is as long in bytes as in
/// characters.
proof fn lemma_ascii_byte_len(s: Seq<char>)
    requires
        forall|i: int| 0 <= i < s.len() ==> ((#[trigger] s[i]) as int) < 0x80,
    ensures
        byte_len(s) == s.len(),
    decreases s.len(),
{
    if s.len() > 0 {
        lemma_ascii_byte_len(s.drop_last());
    }
}

/// Parsing the hexadecimal form of a colour gives the colour back.
pub proof fn law_parse_inverts_hex(c: Colour)
    ensures
        parsed(hex_text(c)) == Ok::<Colour, ColourErrorView>(c),
{
    let s = hex_text(c);
    let rest = s.skip(1);
    assert(rest.len() == 6);
    assert forall|i: int| 0 <= i < rest.len() implies ((#[trigger] rest[i]) as int) < 0x80 by {
        assert(rest[i] == s[i + 1]);
    }
    lemma_ascii_byte_len(rest);
    assert(pair_value(rest[0], rest[1]) == Some(c.r as int));
    assert(pair_value(rest[2], rest[3]) == Some(c.g as int));
    assert(pair_value(rest[4], rest[5]) == Some(c.b as int));
}

/// A text with the capitals of the hexadecimal digits made small.
pub open spec fn lowered(s: Seq<char>) -> Seq<char> {
    s.map_values(
        |c: char|
            if 'A' <= c <= 'F' {
                (c as int - 'A' as int + 'a' as int) as char
            } else {
                c
            },
    )
}

/// Whether a character is a hexadecimal digit of either case.
pub open spec fn is_hex(c: char) -> bool {
    '0' <= c <= '9' || 'a' <= c <= 'f' || 'A' <= c <= 'F'
}

/// The digits of a text of seven characters that parses are those of the
/// colour's hexadecimal form, but for their case.
pub proof fn law_hex_inverts_parse(s: Seq<char>)
    requires
        s.len() == 7,
        parsed(s) is Ok,
    ensures
        hex_text(parsed(s)->Ok_0) == lowered(s),
{
    let c = parsed(s)->Ok_0;
    let rest = s.skip(1);
    lemma_pair_digits(rest[0], rest[1]);
    lemma_pair_digits(rest[2], rest[3]);
    lemma_pair_digits(rest[4], rest[5]);
    assert(hex_text(c) =~= lowered(s));
}

/// The digits of the value of two digits are those two, in lower case.
proof fn lemma_pair_digits(hi: char, lo: char)
    requires
        pair_value(hi, lo) is Some,
    ensures
        0 <= pair_value(hi, lo)->0 < 256,
        hex_digit(pair_value(hi, lo)->0 / 16) == lowered(seq![hi])[0],
        hex_digit(pair_value(hi, lo)->0 % 16) == lowered(seq![lo])[0],
{
}

/// The short form of a colour means the long form with every digit doubled:
/// both give the same colour, or neither is one.
pub proof fn law_short_form_doubles_its_digits(x: char, y: char, z: char)
    requires
        (x as int) < 0x80,
        (y as int) < 0x80,
        (z as int) < 0x80,
    ensures
        match (parsed(seq!['#', x, y, z]), parsed(seq!['#', x, x, y, y, z, z])) {
            (Ok(short), Ok(long)) => short == long,
            (
                Err(ColourErrorView::BadDigit(short)),
                Err(ColourErrorView::BadDigit(long)),
            ) => short == seq!['#', x, y, z] && long == seq!['#', x, x, y, y, z, z],
            _ => false,
        },
{
    let short = seq!['#', x, y, z];
    let long = seq!['#', x, x, y, y, z, z];
    assert(short.skip(1) =~= seq![x, y, z]);
    assert(long.skip(1) =~= seq![x, x, y, y, z, z]);
    lemma_ascii_byte_len(short.skip(1));
    lemma_ascii_byte_len(long.skip(1));
}

/// Exactly a `#` before three or six hexadecimal digits is a colour. Of the
/// rest, what lacks the `#` is told so whatever follows, and what is three or
/// six bytes long behind it is told of its digits.
pub proof fn law_only_hex_digits_are_colours(s: Seq<char>)
    ensures
        parsed(s) is Ok <==> {
            &&& s.len() == 4 || s.len() == 7
            &&& s[0] == '#'
            &&& forall|i: int| 1 <= i < s.len() ==> is_hex(#[trigger] s[i])
        },
        parsed(s) == Err::<Colour, ColourErrorView>(ColourErrorView::NoHash(s)) <==> !(
        s.len() > 0 && s[0] == '#'),
        parsed(s) == Err::<Colour, ColourErrorView>(ColourErrorView::BadLength(s)) <==> s.len()
            > 0 && s[0] == '#' && byte_len(s) != 4 && byte_len(s) != 7,
{
    if s.len() > 0 && s[0] == '#' {
        let rest = s.skip(1);
        lemma_first_byte(s);
        if parsed(s) is Ok {
            assert forall|i: int| 1 <= i < s.len() implies is_hex(#[trigger] s[i]) by {
                assert(s[i] == rest[i - 1]);
            }
        }
        if (s.len() == 4 || s.len() == 7) && (forall|i: int|
            1 <= i < s.len() ==> is_hex(#[trigger] s[i])) {
            assert forall|i: int| 0 <= i < rest.len() implies ((#[trigger] rest[i]) as int)
                < 0x80 by {
                assert(rest[i] == s[i + 1]);
            }
            lemma_ascii_byte_len(rest);
            assert(is_hex(s[1]) && is_hex(s[2]) && is_hex(s[3]));
            if s.len() == 7 {
                assert(is_hex(s[4]) && is_hex(s[5]) && is_hex(s[6]));
            }
        }
    }
}

/// The first character of a text adds its own bytes to the rest's.
proof fn lemma_first_byte(s: Seq<char>)
    requires
        s.len() > 0,
    ensures
        byte_len(s) == char_width(s[0]) + byte_len(s.skip(1)),
    decreases s.len(),
{
    if s.len() == 1 {
        assert(s.drop_last().len() == 0);
        assert(byte_len(s.drop_last()) == 0);
    } else {
        lemma_first_byte(s.drop_last());
        assert(s.skip(1).drop_last() =~= s.drop_last().skip(1));
    }
}

/// Two letters that differ in case alone are the same digit.
pub proof fn law_case_of_a_digit_does_not_matter(s: Seq<char>)
    requires
        parsed(s) is Ok,
    ensures
        parsed(lowered(s)) == parsed(s),
{
    let low = lowered(s);
    law_only_hex_digits_are_colours(s);
    law_only_hex_digits_are_colours(low);
    assert forall|i: int| 1 <= i < low.len() implies is_hex(#[trigger] low[i]) by {
        assert(is_hex(s[i]));
    }
    assert forall|i: int| 1 <= i < s.len() implies #[trigger] digit_value(low[i])
        == digit_value(s[i]) by {
        assert(is_hex(s[i]));
    }
    assert forall|i: int| 0 <= i < s.len() - 1 implies #[trigger] s.skip(1)[i] == s[i + 1]
        && low.skip(1)[i] == low[i + 1] by {}
    assert(s.skip(1).len() == s.len() - 1 && low.skip(1).len() == s.len() - 1);
}

/// The number of bytes that UTF-8 uses for a character.
pub fn exec_width(c: char) -> (r: usize)
    ensures
        r == char_width(c),
{
    let n: u32 = c as u32;
    if n < 0x80 {
        1
    } else if n < 0x800 {
        2
    } else if n < 0x10000 {
        3
    } else {
        4
    }
}

fn exec_digit(c: char) -> (r: Option<u8>)
    ensures
        match r {
            Some(d) => d < 16 && digit_value(c) == Some(d as int),
            None => digit_value(c) is None,
        },
{
    if '0' <= c && c <= '9' {
        Some((c as u32 - '0' as u32) as u8)
    } else if 'a' <= c && c <= 'f' {
        Some((c as u32 - 'a' as u32 + 10) as u8)
    } else if 'A' <= c && c <= 'F' {
        Some((c as u32 - 'A' as u32 + 10) as u8)
    } else {
        None
    }
}

fn exec_pair(hi: char, lo: char) -> (r: Option<u8>)
    ensures
        match r {
            Some(d) => pair_value(hi, lo) == Some(d as int),
            None => pair_value(hi, lo) is None,
        },
{
    match (exec_digit(hi), exec_digit(lo)) {
        (Some(a), Some(b)) => Some(16 * a + b),
        _ => None,
    }
}

fn exec_hex_digit(v: u8) -> (r: char)
    requires
        v < 16,
    ensures
        r == hex_digit(v as int),
{
    if v < 10 {
        (0x30u8 + v) as char
    } else {
        (0x61u8 + (v - 10)) as char
    }
}

/// The colour of the characters after the `#`, where they are digits.
fn digits_to_colour(cs: &Vec<char>) -> (r: Option<Colour>)
    requires
        cs.len() > 0,
    ensures
        r == digits_colour(cs@.skip(1)),
{
    if cs.len() == 4 {
        match (exec_digit(cs[1]), exec_digit(cs[2]), exec_digit(cs[3])) {
            (Some(r), Some(g), Some(b)) => Some(Colour { r: 17 * r, g: 17 * g, b: 17 * b }),
            _ => None,
        }
    } else if cs.len() == 7 {
        match (exec_pair(cs[1], cs[2]), exec_pair(cs[3], cs[4]), exec_pair(cs[5], cs[6])) {
            (Some(r), Some(g), Some(b)) => Some(Colour { r, g, b }),
            _ => None,
        }
    } else {
        None
    }
}

impl Colour {
    /// Parse `#rgb` or `#rrggbb`.
    pub fn parse(s: &str) -> (r: Result<Colour, ColourError>)
        ensures
            match r {
                Ok(c) => parsed(s@) == Ok::<Colour, ColourErrorView>(c),
                Err(e) => parsed(s@) == Err::<Colour, ColourErrorView>(e@),
            },
    {
        let cs: Vec<char> = chars_of(s);
        if cs.len() == 0 || cs[0] != '#' {
            return Err(ColourError::NoHash(owned(s)));
        }
        let ghost rest = s@.skip(1);
        proof {
            lemma_byte_len_bounds(rest);
        }
        if cs.len() > 7 {
            return Err(ColourError::BadLength(owned(s)));
        }
        let mut n: usize = 0;
        let mut i: usize = 1;
        while i < cs.len()
            invariant
                1 <= i <= cs.len() <= 7,
                rest == cs@.skip(1),
                n == byte_len(rest.take(i - 1)),
                n <= 4 * i,
            decreases cs.len() - i,
        {
            proof {
                assert(rest.take(i as int).drop_last() =~= rest.take(i - 1));
                assert(rest.take(i as int).last() == cs@[i as int]);
            }
            n = n + exec_width(cs[i]);
            i = i + 1;
        }
        assert(rest.take(i - 1) =~= rest);
        if n != 3 && n != 6 {
            return Err(ColourError::BadLength(owned(s)));
        }
        match digits_to_colour(&cs) {
            Some(c) => Ok(c),
            None => Err(ColourError::BadDigit(owned(s))),
        }
    }

    /// The `#rrggbb` form, in lower case.
    pub fn hex(&self) -> (r: String)
        ensures
            r@ == hex_text(*self),
    {
        let mut out: String = String::new();
        out.push('#');
        out.push(exec_hex_digit(self.r / 16));
        out.push(exec_hex_digit(self.r % 16));
        out.push(exec_hex_digit(self.g / 16));
        out.push(exec_hex_digit(self.g % 16));
        out.push(exec_hex_digit(self.b / 16));
        out.push(exec_hex_digit(self.b % 16));
        assert(out@ =~= hex_text(*self));
        out
    }
}

} // verus!
