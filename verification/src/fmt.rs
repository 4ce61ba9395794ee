//! The house style of a configuration file, as the taplo formatter lays it out.

use crate::colour::{byte_len, exec_width};
use crate::nesting::{nesting, nesting_depth};
use crate::text::{chars_of, opt_view, same};
use vstd::prelude::*;

verus! {

/// How deep a document may nest values for taplo to descend into it.
pub const MAX_NESTING: usize = 256;

/// Whether taplo can lay a text out: it counts bytes in 32 bits, and descends
/// into values by recursion.
pub open spec fn is_formattable(s: Seq<char>) -> bool {
    byte_len(s) <= u32::MAX && nesting(s) <= MAX_NESTING
}

/// What `taplo::formatter::format` makes of a TOML document under the given
/// options, every other option at its default.
pub uninterp spec fn taplo_text(
    src: Seq<char>,
    indent_tables: bool,
    indent_entries: bool,
    align_entries: bool,
    align_comments: bool,
    reorder_keys: bool,
    column_width: int,
) -> Seq<char>;

/// `taplo::formatter::format` parses a document and lays it out anew, skipping
/// the ranges that do not parse; what it returns depends on the document and
/// the options alone. Its positions are 32-bit byte offsets, which a longer
/// document overflows. It descends into a value at each bracket or brace that
/// opens one, and nowhere else, and comes back where that is closed. So it goes
/// no deeper than `nesting` says, which is what keeps it within its stack.
#[verifier::external_body]
fn taplo_format(
    src: &str,
    indent_tables: bool,
    indent_entries: bool,
    align_entries: bool,
    align_comments: bool,
    reorder_keys: bool,
    column_width: usize,
) -> (r: String)
    requires
        is_formattable(src@),
    ensures
        r@ == taplo_text(
            src@,
            indent_tables,
            indent_entries,
            align_entries,
            align_comments,
            reorder_keys,
            column_width as int,
        ),
{
    let options = taplo::formatter::Options {
        indent_tables,
        indent_entries,
        align_entries,
        align_comments,
        reorder_keys,
        column_width,
        ..taplo::formatter::Options::default()
    };
    taplo::formatter::format(src, options)
}

/// A document in the house style: nested tables and their entries indented,
/// `=` and trailing comments aligned, keys in the order they were written.
pub open spec fn house_style(src: Seq<char>) -> Seq<char> {
    taplo_text(src, true, true, true, true, false, 100)
}

/// What formatting writes over a file that holds `original`, if anything.
pub open spec fn rewritten(original: Seq<char>) -> Option<Seq<char>> {
    if house_style(original) != original {
        Some(house_style(original))
    } else {
        None
    }
}

/// What a file that held `original` holds once it is formatted.
pub open spec fn formatted(original: Seq<char>) -> Seq<char> {
    match rewritten(original) {
        Some(text) => text,
        None => original,
    }
}

/// Once it is formatted a file is in the house style, and it is written only
/// where it was not. Where taplo leaves its own layout of the text as it is,
/// formatting the file again writes nothing.
pub proof fn law_formatting_settles(original: Seq<char>)
    requires
        house_style(house_style(original)) == house_style(original),
    ensures
        formatted(original) == house_style(original),
        rewritten(original) is Some <==> house_style(original) != original,
        rewritten(formatted(original)) is None,
        formatted(formatted(original)) == formatted(original),
{
}

/// A longer part of a text is no shorter in bytes.
proof fn lemma_byte_len_grows(s: Seq<char>, n: int)
    requires
        0 <= n <= s.len(),
    ensures
        byte_len(s.take(n)) <= byte_len(s),
    decreases s.len(),
{
    if n < s.len() {
        lemma_byte_len_grows(s.drop_last(), n);
        assert(s.drop_last().take(n) =~= s.take(n));
    } else {
        assert(s.take(n) =~= s);
    }
}

/// Whether taplo can count the bytes of a text.
fn countable(text: &str) -> (r: bool)
    ensures
        r == (byte_len(text@) <= u32::MAX),
{
    let cs: Vec<char> = chars_of(text);
    let mut bytes: u64 = 0;
    let mut i: usize = 0;
    while i < cs.len()
        invariant
            i <= cs.len(),
            cs@ == text@,
            bytes == byte_len(text@.take(i as int)),
            bytes <= u32::MAX,
        decreases cs.len() - i,
    {
        assert(text@.take(i + 1).drop_last() =~= text@.take(i as int));
        bytes = bytes + exec_width(cs[i]) as u64;
        i = i + 1;
        if bytes > u32::MAX as u64 {
            proof {
                lemma_byte_len_grows(text@, i as int);
            }
            return false;
        }
    }
    assert(text@.take(i as int) =~= text@);
    true
}

/// Whether taplo can lay a text out.
pub fn formattable(text: &str) -> (r: bool)
    ensures
        r == is_formattable(text@),
{
    countable(text) && nesting_depth(text) <= MAX_NESTING
}

/// Format TOML in the house style.
pub fn format_str(input: &str) -> (r: String)
    requires
        is_formattable(input@),
    ensures
        r@ == house_style(input@),
{
    taplo_format(input, true, true, true, true, false, 100)
}

/// What to write over a file: the formatted text, and only where it differs
/// from what the file holds.
pub fn rewrite(original: &str, formatted: String) -> (r: Option<String>)
    ensures
        r is Some <==> original@ != formatted@,
        r is Some ==> r->0@ == formatted@,
{
    if same(original, formatted.as_str()) {
        None
    } else {
        Some(formatted)
    }
}

/// What to write over a file that holds `original`, if anything.
pub fn format_text(original: &str) -> (r: Option<String>)
    requires
        is_formattable(original@),
    ensures
        opt_view(r) == rewritten(original@),
{
    rewrite(original, format_str(original))
}

/// Format TOML in the house style, where taplo can lay it out.
pub fn try_format_str(input: &str) -> (r: Option<String>)
    ensures
        r is Some <==> is_formattable(input@),
        r is Some ==> r->0@ == house_style(input@),
{
    if formattable(input) {
        Some(format_str(input))
    } else {
        None
    }
}

/// What to write over a file that holds `original`, if anything, where taplo
/// can lay it out.
pub fn try_format_text(original: &str) -> (r: Option<Option<String>>)
    ensures
        r is Some <==> is_formattable(original@),
        r matches Some(w) ==> opt_view(w) == rewritten(original@),
{
    if formattable(original) {
        Some(format_text(original))
    } else {
        None
    }
}

/// What formatting a file comes to.
#[derive(Debug, Clone, Copy, PartialEq, Eq, Structural)]
pub enum FmtOutcome {
    /// The file is not TOML; it is left alone.
    NotToml,
    /// The file is in the house style.
    Clean,
    /// It is not, and was only asked about.
    WouldReformat,
    /// It is not, and is to be rewritten.
    Rewrite,
}

impl FmtOutcome {
    pub open spec fn code(self) -> i32 {
        match self {
            FmtOutcome::NotToml => 1,
            FmtOutcome::WouldReformat => 1,
            FmtOutcome::Clean => 0,
            FmtOutcome::Rewrite => 0,
        }
    }

    /// The exit code of the command.
    pub fn exit_code(self) -> (r: i32)
        ensures
            r == self.code(),
    {
        match self {
            FmtOutcome::NotToml => 1,
            FmtOutcome::WouldReformat => 1,
            FmtOutcome::Clean => 0,
            FmtOutcome::Rewrite => 0,
        }
    }
}

/// What formatting comes to, given whether the text is TOML and whether its
/// layout would change. With `check` nothing is rewritten.
pub fn fmt_outcome(check: bool, is_toml: bool, changes: bool) -> (r: FmtOutcome)
    ensures
        r == (if !is_toml {
            FmtOutcome::NotToml
        } else if !changes {
            FmtOutcome::Clean
        } else if check {
            FmtOutcome::WouldReformat
        } else {
            FmtOutcome::Rewrite
        }),
{
    if !is_toml {
        FmtOutcome::NotToml
    } else if !changes {
        FmtOutcome::Clean
    } else if check {
        FmtOutcome::WouldReformat
    } else {
        FmtOutcome::Rewrite
    }
}

} // verus!
