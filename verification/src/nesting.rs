//! How deep a TOML document nests its values, told without parsing it: exactly
//! as long as it is written plainly, and at the most from there on.

use crate::text::chars_of;
use vstd::prelude::*;

verus! {

/// Where in a document a reader stands.
#[derive(Debug, Clone, Copy, PartialEq, Eq, Structural)]
pub enum Mode {
    /// At the start of a line.
    Start,
    /// Before the second bracket of a header.
    Double,
    /// Before a name in a header; `double` says how it ends.
    Header { double: bool },
    /// In a name in a header.
    Title { double: bool },
    /// Before the last bracket of a header.
    Last,
    /// Before a name in a key. Where `may_end` holds an inline table may end
    /// here instead.
    Names { may_end: bool },
    /// In a name in a key.
    Name,
    /// Behind a key.
    Equals,
    /// Before a value.
    Value,
    /// Behind a value, in an array or an inline table.
    After,
    /// In the word `true` or `false`, behind so many of its letters.
    Word { truth: bool, read: u8 },
    /// Behind the sign of a number.
    Sign,
    /// In a number that starts with a nought.
    Nought,
    /// In a number.
    Digits,
    /// Behind the point of a number.
    Point,
    /// In the fraction of a number.
    Fraction,
    /// On what is left of a line.
    Bare,
    /// In a comment; `after` says whether a value stands before it.
    Comment { after: bool },
    /// In a string between double quotes.
    Basic { escaped: bool },
    /// In a string between single quotes.
    Literal,
    /// In the opening quotes of a string that may span lines.
    Opening { literal: bool, left: u8 },
    /// In a string that may span lines, behind so many of its closing quotes.
    Long { literal: bool, quotes: u8, escaped: bool },
}

/// What one character leads to.
#[derive(Debug, Clone, Copy, PartialEq, Eq, Structural)]
pub enum Step {
    /// On to another place.
    To(Mode),
    /// On within a string.
    Within(Mode),
    /// Into an array or an inline table.
    Into { table: bool },
    /// Out of the innermost array or inline table.
    Out,
    /// Behind a string.
    Ended,
    /// To something that is not written plainly.
    Lost,
}

/// Whether `c` opens an array, an inline table or a table header.
pub open spec fn is_opener(c: char) -> bool {
    c == '[' || c == '{'
}

/// Whether `c` is a blank, or the first half of a line break.
pub open spec fn is_gap(c: char, next: char) -> bool {
    c == ' ' || c == '\t' || (c == '\r' && next == '\n')
}

pub open spec fn is_letter(c: char) -> bool {
    ('a' <= c <= 'z') || ('A' <= c <= 'Z')
}

pub open spec fn is_digit(c: char) -> bool {
    '0' <= c <= '9'
}

/// Whether `c` may stand in a name behind its first letter.
pub open spec fn is_name_char(c: char) -> bool {
    is_letter(c) || is_digit(c) || c == '_' || c == '-'
}

/// The letter of `true` or `false` behind so many of its letters.
pub open spec fn letter_of(truth: bool, read: u8) -> char {
    if truth {
        if read == 1 {
            'r'
        } else if read == 2 {
            'u'
        } else {
            'e'
        }
    } else if read == 1 {
        'a'
    } else if read == 2 {
        'l'
    } else if read == 3 {
        's'
    } else {
        'e'
    }
}

/// How many letters `true` or `false` has.
pub open spec fn letters_of(truth: bool) -> u8 {
    if truth {
        4
    } else {
        5
    }
}

/// Where the quote `c` leads to at the start of a value.
pub open spec fn string_start(c: char, next: char, third: char) -> Step {
    if next == c && third == c {
        Step::Within(Mode::Opening { literal: c == '\'', left: 2 })
    } else if c == '\'' {
        Step::Within(Mode::Literal)
    } else {
        Step::Within(Mode::Basic { escaped: false })
    }
}

/// Where `c` leads to before a value. `inside` says whether that is in an
/// inline table or in an array, if in either.
pub open spec fn before_value(inside: Option<bool>, c: char, next: char, third: char) -> Step {
    if is_gap(c, next) {
        Step::To(Mode::Value)
    } else if c == '"' || c == '\'' {
        string_start(c, next, third)
    } else if is_opener(c) {
        Step::Into { table: c == '{' }
    } else if inside is None {
        if c == '\n' {
            Step::To(Mode::Start)
        } else if c == '#' {
            Step::To(Mode::Comment { after: false })
        } else if c == '\r' {
            Step::Lost
        } else {
            Step::To(Mode::Bare)
        }
    } else if c == '0' {
        Step::To(Mode::Nought)
    } else if is_digit(c) {
        Step::To(Mode::Digits)
    } else if c == '-' || c == '+' {
        Step::To(Mode::Sign)
    } else if c == 't' || c == 'f' {
        Step::To(Mode::Word { truth: c == 't', read: 1 })
    } else if inside == Some(false) {
        if c == '\n' {
            Step::To(Mode::Value)
        } else if c == '#' {
            Step::To(Mode::Comment { after: false })
        } else if c == ']' {
            Step::Out
        } else {
            Step::Lost
        }
    } else {
        Step::Lost
    }
}

/// Where `c` leads to behind a value in an array or an inline table.
pub open spec fn behind_value(inside: Option<bool>, c: char, next: char) -> Step {
    if is_gap(c, next) {
        Step::To(Mode::After)
    } else if inside == Some(false) {
        if c == '\n' {
            Step::To(Mode::After)
        } else if c == '#' {
            Step::To(Mode::Comment { after: true })
        } else if c == ',' {
            Step::To(Mode::Value)
        } else if c == ']' {
            Step::Out
        } else {
            Step::Lost
        }
    } else if inside == Some(true) {
        if c == ',' {
            Step::To(Mode::Names { may_end: false })
        } else if c == '}' {
            Step::Out
        } else {
            Step::Lost
        }
    } else {
        Step::Lost
    }
}

/// Where `c` leads to at the start of a line.
pub open spec fn line_start(c: char, next: char) -> Step {
    if is_gap(c, next) || c == '\n' {
        Step::To(Mode::Start)
    } else if c == '#' {
        Step::To(Mode::Comment { after: false })
    } else if c == '[' {
        Step::To(
            if next == '[' {
                Mode::Double
            } else {
                Mode::Header { double: false }
            },
        )
    } else if is_letter(c) {
        Step::To(Mode::Name)
    } else {
        Step::Lost
    }
}

/// Where `c` leads to in a string that may span lines.
pub open spec fn long_text(literal: bool, quotes: u8, escaped: bool, c: char, next: char) -> Step {
    let quote = if literal {
        '\''
    } else {
        '"'
    };
    if c == '\\' && !literal {
        Step::Within(Mode::Long { literal, quotes: 0, escaped: true })
    } else if c != quote || escaped {
        Step::Within(Mode::Long { literal, quotes: 0, escaped: false })
    } else if quotes < 2 {
        Step::Within(Mode::Long { literal, quotes: (quotes + 1) as u8, escaped: false })
    } else if next == quote {
        Step::Lost
    } else {
        Step::Ended
    }
}

/// Where `c` leads to, given the two characters behind it.
#[verifier::opaque]
pub open spec fn step_of(
    mode: Mode,
    inside: Option<bool>,
    c: char,
    next: char,
    third: char,
) -> Step {
    match mode {
        Mode::Start => line_start(c, next),
        Mode::Double => Step::To(Mode::Header { double: true }),
        Mode::Header { double } => if is_letter(c) {
            Step::To(Mode::Title { double })
        } else {
            Step::Lost
        },
        Mode::Title { double } => if is_name_char(c) {
            Step::To(mode)
        } else if c == '.' {
            Step::To(Mode::Header { double })
        } else if c == ']' {
            Step::To(
                if double {
                    Mode::Last
                } else {
                    Mode::Bare
                },
            )
        } else {
            Step::Lost
        },
        Mode::Last => if c == ']' {
            Step::To(Mode::Bare)
        } else {
            Step::Lost
        },
        Mode::Names { may_end } => if is_gap(c, next) && inside == Some(true) {
            Step::To(mode)
        } else if is_letter(c) {
            Step::To(Mode::Name)
        } else if c == '}' && may_end && inside == Some(true) {
            Step::Out
        } else {
            Step::Lost
        },
        Mode::Name => if is_name_char(c) {
            Step::To(mode)
        } else if c == '.' && is_letter(next) {
            Step::To(Mode::Names { may_end: false })
        } else if c == '=' {
            Step::To(Mode::Value)
        } else if c == ' ' || c == '\t' {
            Step::To(Mode::Equals)
        } else {
            Step::Lost
        },
        Mode::Equals => if c == ' ' || c == '\t' {
            Step::To(mode)
        } else if c == '=' {
            Step::To(Mode::Value)
        } else {
            Step::Lost
        },
        Mode::Value => before_value(inside, c, next, third),
        Mode::After => behind_value(inside, c, next),
        Mode::Word { truth, read } => if read >= letters_of(truth) {
            behind_value(inside, c, next)
        } else if c == letter_of(truth, read) {
            Step::To(Mode::Word { truth, read: (read + 1) as u8 })
        } else {
            Step::Lost
        },
        Mode::Sign => if c == '0' {
            Step::To(Mode::Nought)
        } else if is_digit(c) {
            Step::To(Mode::Digits)
        } else {
            Step::Lost
        },
        Mode::Nought => if c == '.' {
            Step::To(Mode::Point)
        } else {
            behind_value(inside, c, next)
        },
        Mode::Digits => if is_digit(c) {
            Step::To(mode)
        } else if c == '.' {
            Step::To(Mode::Point)
        } else {
            behind_value(inside, c, next)
        },
        Mode::Point => if is_digit(c) {
            Step::To(Mode::Fraction)
        } else {
            Step::Lost
        },
        Mode::Fraction => if is_digit(c) {
            Step::To(mode)
        } else {
            behind_value(inside, c, next)
        },
        Mode::Bare => if c == '\n' {
            Step::To(Mode::Start)
        } else if c == '#' {
            Step::To(Mode::Comment { after: false })
        } else if c == '"' || c == '\'' || is_opener(c) || (c == '\r' && next != '\n') {
            Step::Lost
        } else {
            Step::To(mode)
        },
        Mode::Comment { after } => if c == '\n' {
            Step::To(
                if inside is None {
                    Mode::Start
                } else if after {
                    Mode::After
                } else {
                    Mode::Value
                },
            )
        } else if c == '\r' && next != '\n' {
            Step::Lost
        } else {
            Step::To(mode)
        },
        Mode::Basic { escaped } => if c == '\n' || c == '\r' {
            Step::Lost
        } else if c == '\\' {
            Step::Within(Mode::Basic { escaped: !escaped })
        } else if c == '"' && !escaped {
            Step::Ended
        } else {
            Step::Within(Mode::Basic { escaped: false })
        },
        Mode::Literal => if c == '\n' || c == '\r' {
            Step::Lost
        } else if c == '\'' {
            Step::Ended
        } else {
            Step::Within(mode)
        },
        Mode::Opening { literal, left } => if left > 1 {
            Step::Within(Mode::Opening { literal, left: 1 })
        } else {
            Step::Within(Mode::Long { literal, quotes: 0, escaped: false })
        },
        Mode::Long { literal, quotes, escaped } => long_text(literal, quotes, escaped, c, next),
    }
}

/// What a reader knows of the part of a document behind it.
#[verifier::ext_equal]
pub ghost struct Reading {
    pub mode: Mode,
    /// What is open, the innermost last: `true` for an inline table.
    pub open: Seq<bool>,
    /// The openers in the string that is being read.
    pub held: nat,
    /// The most that was ever open.
    pub most: nat,
    /// Where something was not written plainly: how much can be open since.
    pub lost: Option<nat>,
}

/// One more opener where `c` is one.
pub open spec fn counted(n: nat, c: char) -> nat {
    if is_opener(c) {
        n + 1
    } else {
        n
    }
}

/// What is innermost of what is open.
pub open spec fn innermost(open: Seq<bool>) -> Option<bool> {
    if open.len() == 0 {
        None
    } else {
        Some(open.last())
    }
}

/// Where a reader stands behind a value.
pub open spec fn settled_mode(open: Seq<bool>) -> Mode {
    if open.len() == 0 {
        Mode::Bare
    } else {
        Mode::After
    }
}

/// What a reader knows after one more character.
pub open spec fn read_on(r: Reading, c: char, next: char, third: char) -> Reading {
    match r.lost {
        Some(n) => Reading { lost: Some(counted(n, c)), ..r },
        None => match step_of(r.mode, innermost(r.open), c, next, third) {
            Step::To(mode) => Reading { mode, held: 0, ..r },
            Step::Within(mode) => Reading { mode, held: counted(r.held, c), ..r },
            Step::Into { table } => Reading {
                mode: if table {
                    Mode::Names { may_end: true }
                } else {
                    Mode::Value
                },
                open: r.open.push(table),
                most: if r.open.len() + 1 > r.most {
                    r.open.len() + 1
                } else {
                    r.most
                },
                held: 0,
                ..r
            },
            Step::Out => Reading {
                mode: settled_mode(r.open.drop_last()),
                open: r.open.drop_last(),
                held: 0,
                ..r
            },
            Step::Ended => Reading { mode: settled_mode(r.open), held: 0, ..r },
            Step::Lost => Reading { lost: Some(counted(r.open.len() + r.held, c)), ..r },
        },
    }
}

/// The character at `i`, or a line break behind the end.
pub open spec fn peeked(s: Seq<char>, i: int) -> char {
    if i < s.len() {
        s[i]
    } else {
        '\n'
    }
}

/// What a reader knows of the first `n` characters of a document.
pub open spec fn reading(s: Seq<char>, n: int) -> Reading
    decreases n,
{
    if n <= 0 {
        Reading { mode: Mode::Start, open: Seq::empty(), held: 0, most: 0, lost: None }
    } else {
        read_on(reading(s, n - 1), s[n - 1], peeked(s, n), peeked(s, n + 1))
    }
}

/// How many values a document nests in each other at the most. While it is
/// written plainly, with every string, array and inline table ended as it
/// should be, that is how many are open at one time. From the first place on
/// where it is not, every bracket and brace counts, and so do those of a string
/// that is not ended: what they open may never be closed.
pub open spec fn nesting(s: Seq<char>) -> nat {
    let r = reading(s, s.len() as int);
    let left = match r.lost {
        Some(n) => n,
        None => r.open.len() + r.held,
    };
    if left > r.most {
        left
    } else {
        r.most
    }
}

fn gap(c: char, next: char) -> (r: bool)
    ensures
        r == is_gap(c, next),
{
    c == ' ' || c == '\t' || (c == '\r' && next == '\n')
}

fn letter(c: char) -> (r: bool)
    ensures
        r == is_letter(c),
{
    ('a' <= c && c <= 'z') || ('A' <= c && c <= 'Z')
}

fn digit(c: char) -> (r: bool)
    ensures
        r == is_digit(c),
{
    '0' <= c && c <= '9'
}

fn name_char(c: char) -> (r: bool)
    ensures
        r == is_name_char(c),
{
    letter(c) || digit(c) || c == '_' || c == '-'
}

fn value_step(inside: Option<bool>, c: char, next: char, third: char) -> (r: Step)
    ensures
        r == before_value(inside, c, next, third),
{
    if gap(c, next) {
        return Step::To(Mode::Value);
    }
    if c == '"' || c == '\'' {
        return if next == c && third == c {
            Step::Within(Mode::Opening { literal: c == '\'', left: 2 })
        } else if c == '\'' {
            Step::Within(Mode::Literal)
        } else {
            Step::Within(Mode::Basic { escaped: false })
        };
    }
    if c == '[' || c == '{' {
        return Step::Into { table: c == '{' };
    }
    match inside {
        None => match c {
            '\n' => Step::To(Mode::Start),
            '#' => Step::To(Mode::Comment { after: false }),
            '\r' => Step::Lost,
            _ => Step::To(Mode::Bare),
        },
        Some(table) => if c == '0' {
            Step::To(Mode::Nought)
        } else if digit(c) {
            Step::To(Mode::Digits)
        } else if c == '-' || c == '+' {
            Step::To(Mode::Sign)
        } else if c == 't' || c == 'f' {
            Step::To(Mode::Word { truth: c == 't', read: 1 })
        } else if table {
            Step::Lost
        } else {
            match c {
                '\n' => Step::To(Mode::Value),
                '#' => Step::To(Mode::Comment { after: false }),
                ']' => Step::Out,
                _ => Step::Lost,
            }
        },
    }
}

fn after_step(inside: Option<bool>, c: char, next: char) -> (r: Step)
    ensures
        r == behind_value(inside, c, next),
{
    if gap(c, next) {
        return Step::To(Mode::After);
    }
    match inside {
        None => Step::Lost,
        Some(false) => match c {
            '\n' => Step::To(Mode::After),
            '#' => Step::To(Mode::Comment { after: true }),
            ',' => Step::To(Mode::Value),
            ']' => Step::Out,
            _ => Step::Lost,
        },
        Some(true) => match c {
            ',' => Step::To(Mode::Names { may_end: false }),
            '}' => Step::Out,
            _ => Step::Lost,
        },
    }
}

fn word_step(truth: bool, read: u8, inside: Option<bool>, c: char, next: char) -> (r: Step)
    ensures
        r == (if read >= letters_of(truth) {
            behind_value(inside, c, next)
        } else if c == letter_of(truth, read) {
            Step::To(Mode::Word { truth, read: (read + 1) as u8 })
        } else {
            Step::Lost
        }),
{
    let letters: u8 = if truth {
        4
    } else {
        5
    };
    if read >= letters {
        return after_step(inside, c, next);
    }
    let expected: char = match (truth, read) {
        (true, 1) => 'r',
        (true, 2) => 'u',
        (false, 1) => 'a',
        (false, 2) => 'l',
        (false, 3) => 's',
        _ => 'e',
    };
    if c == expected {
        Step::To(Mode::Word { truth, read: read + 1 })
    } else {
        Step::Lost
    }
}

fn start_step(c: char, next: char) -> (r: Step)
    ensures
        r == line_start(c, next),
{
    if gap(c, next) || c == '\n' {
        Step::To(Mode::Start)
    } else if c == '#' {
        Step::To(Mode::Comment { after: false })
    } else if c == '[' {
        if next == '[' {
            Step::To(Mode::Double)
        } else {
            Step::To(Mode::Header { double: false })
        }
    } else if letter(c) {
        Step::To(Mode::Name)
    } else {
        Step::Lost
    }
}

fn long_step(literal: bool, quotes: u8, escaped: bool, c: char, next: char) -> (r: Step)
    ensures
        r == long_text(literal, quotes, escaped, c, next),
{
    let quote: char = if literal {
        '\''
    } else {
        '"'
    };
    if c == '\\' && !literal {
        Step::Within(Mode::Long { literal, quotes: 0, escaped: true })
    } else if c != quote || escaped {
        Step::Within(Mode::Long { literal, quotes: 0, escaped: false })
    } else if quotes < 2 {
        Step::Within(Mode::Long { literal, quotes: quotes + 1, escaped: false })
    } else if next == quote {
        Step::Lost
    } else {
        Step::Ended
    }
}

fn step(mode: Mode, inside: Option<bool>, c: char, next: char, third: char) -> (r: Step)
    ensures
        r == step_of(mode, inside, c, next, third),
        r is Out ==> inside is Some,
{
    proof {
        reveal(step_of);
    }
    match mode {
        Mode::Start => start_step(c, next),
        Mode::Double => Step::To(Mode::Header { double: true }),
        Mode::Header { double } => if letter(c) {
            Step::To(Mode::Title { double })
        } else {
            Step::Lost
        },
        Mode::Title { double } => if name_char(c) {
            Step::To(mode)
        } else if c == '.' {
            Step::To(Mode::Header { double })
        } else if c != ']' {
            Step::Lost
        } else if double {
            Step::To(Mode::Last)
        } else {
            Step::To(Mode::Bare)
        },
        Mode::Last => if c == ']' {
            Step::To(Mode::Bare)
        } else {
            Step::Lost
        },
        Mode::Names { may_end } => match inside {
            Some(true) => if gap(c, next) {
                Step::To(mode)
            } else if letter(c) {
                Step::To(Mode::Name)
            } else if c == '}' && may_end {
                Step::Out
            } else {
                Step::Lost
            },
            _ => if letter(c) {
                Step::To(Mode::Name)
            } else {
                Step::Lost
            },
        },
        Mode::Name => if name_char(c) {
            Step::To(mode)
        } else if c == '.' && letter(next) {
            Step::To(Mode::Names { may_end: false })
        } else if c == '=' {
            Step::To(Mode::Value)
        } else if c == ' ' || c == '\t' {
            Step::To(Mode::Equals)
        } else {
            Step::Lost
        },
        Mode::Equals => if c == ' ' || c == '\t' {
            Step::To(mode)
        } else if c == '=' {
            Step::To(Mode::Value)
        } else {
            Step::Lost
        },
        Mode::Value => value_step(inside, c, next, third),
        Mode::After => after_step(inside, c, next),
        Mode::Word { truth, read } => word_step(truth, read, inside, c, next),
        Mode::Sign => if c == '0' {
            Step::To(Mode::Nought)
        } else if digit(c) {
            Step::To(Mode::Digits)
        } else {
            Step::Lost
        },
        Mode::Nought => if c == '.' {
            Step::To(Mode::Point)
        } else {
            after_step(inside, c, next)
        },
        Mode::Digits => if digit(c) {
            Step::To(mode)
        } else if c == '.' {
            Step::To(Mode::Point)
        } else {
            after_step(inside, c, next)
        },
        Mode::Point => if digit(c) {
            Step::To(Mode::Fraction)
        } else {
            Step::Lost
        },
        Mode::Fraction => if digit(c) {
            Step::To(mode)
        } else {
            after_step(inside, c, next)
        },
        Mode::Bare => if c == '\n' {
            Step::To(Mode::Start)
        } else if c == '#' {
            Step::To(Mode::Comment { after: false })
        } else if c == '"' || c == '\'' || c == '[' || c == '{' || (c == '\r' && next != '\n') {
            Step::Lost
        } else {
            Step::To(mode)
        },
        Mode::Comment { after } => if c == '\n' {
            if inside.is_none() {
                Step::To(Mode::Start)
            } else if after {
                Step::To(Mode::After)
            } else {
                Step::To(Mode::Value)
            }
        } else if c == '\r' && next != '\n' {
            Step::Lost
        } else {
            Step::To(mode)
        },
        Mode::Basic { escaped } => if c == '\n' || c == '\r' {
            Step::Lost
        } else if c == '\\' {
            Step::Within(Mode::Basic { escaped: !escaped })
        } else if c == '"' && !escaped {
            Step::Ended
        } else {
            Step::Within(Mode::Basic { escaped: false })
        },
        Mode::Literal => if c == '\n' || c == '\r' {
            Step::Lost
        } else if c == '\'' {
            Step::Ended
        } else {
            Step::Within(mode)
        },
        Mode::Opening { literal, left } => if left > 1 {
            Step::Within(Mode::Opening { literal, left: 1 })
        } else {
            Step::Within(Mode::Long { literal, quotes: 0, escaped: false })
        },
        Mode::Long { literal, quotes, escaped } => long_step(literal, quotes, escaped, c, next),
    }
}

/// The character at `i`, or a line break behind the end.
fn peek(cs: &Vec<char>, i: usize) -> (r: char)
    ensures
        r == peeked(cs@, i as int),
{
    if i < cs.len() {
        cs[i]
    } else {
        '\n'
    }
}

/// How many values a document nests in each other at the most.
pub fn nesting_depth(text: &str) -> (r: usize)
    ensures
        r == nesting(text@),
{
    let cs: Vec<char> = chars_of(text);
    let mut mode: Mode = Mode::Start;
    let mut open: Vec<bool> = Vec::new();
    let mut held: usize = 0;
    let mut most: usize = 0;
    let mut lost: Option<usize> = None;
    let mut i: usize = 0;
    assert(open@ =~= reading(cs@, 0).open);
    while i < cs.len()
        invariant
            i <= cs.len(),
            open.len() + held <= i,
            most <= i,
            lost matches Some(n) ==> n <= i,
            reading(cs@, i as int) == (Reading {
                mode,
                open: open@,
                held: held as nat,
                most: most as nat,
                lost: match lost {
                    Some(n) => Some(n as nat),
                    None => None,
                },
            }),
        decreases cs.len() - i,
    {
        let c: char = cs[i];
        let next: char = peek(&cs, i + 1);
        let third: char = if i + 1 < cs.len() {
            peek(&cs, i + 2)
        } else {
            '\n'
        };
        let more: usize = if c == '[' || c == '{' {
            1
        } else {
            0
        };
        match lost {
            Some(n) => {
                lost = Some(n + more);
            },
            None => {
                let inside: Option<bool> = if open.len() == 0 {
                    None
                } else {
                    Some(open[open.len() - 1])
                };
                match step(mode, inside, c, next, third) {
                    Step::To(m) => {
                        mode = m;
                        held = 0;
                    },
                    Step::Within(m) => {
                        mode = m;
                        held = held + more;
                    },
                    Step::Into { table } => {
                        open.push(table);
                        if open.len() > most {
                            most = open.len();
                        }
                        mode = if table {
                            Mode::Names { may_end: true }
                        } else {
                            Mode::Value
                        };
                        held = 0;
                    },
                    Step::Out => {
                        let ghost before = open@;
                        let _ = open.pop();
                        assert(open@ =~= before.drop_last());
                        mode = if open.len() == 0 {
                            Mode::Bare
                        } else {
                            Mode::After
                        };
                        held = 0;
                    },
                    Step::Ended => {
                        mode = if open.len() == 0 {
                            Mode::Bare
                        } else {
                            Mode::After
                        };
                        held = 0;
                    },
                    Step::Lost => {
                        lost = Some(open.len() + held + more);
                    },
                }
            },
        }
        i = i + 1;
    }
    let left: usize = match lost {
        Some(n) => n,
        None => open.len() + held,
    };
    if left > most {
        left
    } else {
        most
    }
}

/// How many brackets and braces open something in a text.
pub open spec fn openers(s: Seq<char>) -> nat
    decreases s.len(),
{
    if s.len() == 0 {
        0
    } else {
        counted(openers(s.drop_last()), s.last())
    }
}

/// Only a bracket or a brace leads into a value, and only out of one that is
/// open does anything lead.
proof fn lemma_into(mode: Mode, inside: Option<bool>, c: char, next: char, third: char)
    ensures
        step_of(mode, inside, c, next, third) is Into ==> is_opener(c),
        step_of(mode, inside, c, next, third) is Out ==> inside is Some,
{
    reveal(step_of);
}

proof fn lemma_reading_counts(s: Seq<char>, n: int)
    requires
        0 <= n <= s.len(),
    ensures
        ({
            let r = reading(s, n);
            let k = openers(s.take(n));
            &&& r.most <= k
            &&& r.open.len() + r.held <= k
            &&& r.lost matches Some(l) ==> l <= k
        }),
    decreases n,
{
    if n > 0 {
        lemma_reading_counts(s, n - 1);
        let r = reading(s, n - 1);
        let c = s[n - 1];
        assert(s.take(n).drop_last() =~= s.take(n - 1));
        assert(s.take(n).last() == c);
        lemma_into(r.mode, innermost(r.open), c, peeked(s, n), peeked(s, n + 1));
    }
}

/// A document nests no deeper than it has brackets and braces that open
/// something.
pub proof fn law_nesting_takes_openers(s: Seq<char>)
    ensures
        nesting(s) <= openers(s),
{
    lemma_reading_counts(s, s.len() as int);
    assert(s.take(s.len() as int) =~= s);
}

proof fn lemma_most_stays(s: Seq<char>, k: int, n: int)
    requires
        0 <= k <= n <= s.len(),
    ensures
        reading(s, k).most <= reading(s, n).most,
        reading(s, k).lost is Some ==> reading(s, n).lost is Some && reading(s, n).lost->0
            == reading(s, k).lost->0 + openers(s.take(n)) - openers(s.take(k)),
    decreases n - k,
{
    if k < n {
        lemma_most_stays(s, k, n - 1);
        assert(s.take(n).drop_last() =~= s.take(n - 1));
        assert(s.take(n).last() == s[n - 1]);
    }
}

/// A bracket or a brace where a value is due nests one deeper than what is open
/// there, wherever that is in a document.
pub proof fn law_an_opened_value_nests_deeper(s: Seq<char>, n: int)
    requires
        0 <= n < s.len(),
        reading(s, n).lost is None,
        reading(s, n).mode == Mode::Value,
        s[n] == '[' || s[n] == '{',
    ensures
        nesting(s) >= reading(s, n).open.len() + 1,
        reading(s, n + 1).open.len() == reading(s, n).open.len() + 1,
        reading(s, n + 1).open.last() == (s[n] == '{'),
{
    reveal(step_of);
    lemma_most_stays(s, n + 1, s.len() as int);
}

/// From where a document is not written plainly every bracket and brace counts,
/// closed or not.
pub proof fn law_openers_count_once_all_is_lost(s: Seq<char>, n: int)
    requires
        0 <= n <= s.len(),
        reading(s, n).lost is Some,
    ensures
        nesting(s) >= reading(s, n).lost->0 + openers(s) - openers(s.take(n)),
{
    lemma_most_stays(s, n, s.len() as int);
    assert(s.take(s.len() as int) =~= s);
}

} // verus!
