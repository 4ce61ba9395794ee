//! Keys, clipboards and the start of a terminal, as they are handed to a surface.

use crate::ffi::{
    ghostty_clipboard_e, ghostty_input_action_e, GHOSTTY_MODS_ALT, GHOSTTY_MODS_CAPS,
    GHOSTTY_MODS_CTRL, GHOSTTY_MODS_NONE, GHOSTTY_MODS_SHIFT, GHOSTTY_MODS_SUPER,
};
use crate::surface::{SurfaceError, TabSpec};
use crate::text::{opt_str, opt_view, owned};
use vstd::prelude::*;

verus! {

/// The modifier flags of a window-system event.
pub const NS_FLAG_CAPS: u64 = 0x10000;

pub const NS_FLAG_SHIFT: u64 = 0x20000;

pub const NS_FLAG_CONTROL: u64 = 0x40000;

pub const NS_FLAG_OPTION: u64 = 0x80000;

pub const NS_FLAG_COMMAND: u64 = 0x100000;

/// Whether a character controls the terminal rather than shows.
pub open spec fn is_control(c: char) -> bool {
    c <= '\u{1f}' || '\u{7f}' <= c <= '\u{9f}'
}

/// Whether `s` is text that was typed, and not a key combination: there is
/// some, and none of it controls the terminal.
pub open spec fn printable(s: Seq<char>) -> bool {
    s.len() > 0 && forall|i: int| 0 <= i < s.len() ==> !is_control(#[trigger] s[i])
}

/// Whether `s` is text that was typed, and not a key combination.
pub fn is_printable_text(s: &str) -> (r: bool)
    ensures
        r == printable(s@),
{
    let n: usize = s.unicode_len();
    let mut i: usize = 0;
    while i < n
        invariant
            i <= n == s@.len(),
            forall|k: int| 0 <= k < i ==> !is_control(#[trigger] s@[k]),
        decreases n - i,
    {
        let c: char = s.get_char(i);
        if c <= '\u{1f}' || ('\u{7f}' <= c && c <= '\u{9f}') {
            assert(is_control(s@[i as int]));
            return false;
        }
        i = i + 1;
    }
    n > 0
}

/// The bit `bit` where `flag` is among `flags`.
pub open spec fn mod_bit(flags: u64, flag: u64, bit: i32) -> int {
    if flags & flag != 0 {
        bit as int
    } else {
        0
    }
}

/// The modifier keys of an event, in the surface's terms.
pub open spec fn mods_of(flags: u64) -> int {
    mod_bit(flags, NS_FLAG_SHIFT, GHOSTTY_MODS_SHIFT) + mod_bit(
        flags,
        NS_FLAG_CONTROL,
        GHOSTTY_MODS_CTRL,
    ) + mod_bit(flags, NS_FLAG_OPTION, GHOSTTY_MODS_ALT) + mod_bit(
        flags,
        NS_FLAG_COMMAND,
        GHOSTTY_MODS_SUPER,
    ) + mod_bit(flags, NS_FLAG_CAPS, GHOSTTY_MODS_CAPS)
}

/// The modifier keys of an event, in the surface's terms.
pub fn mods_from_flags(flags: u64) -> (r: i32)
    ensures
        r == mods_of(flags),
{
    let mut mods: i32 = GHOSTTY_MODS_NONE;
    if flags & NS_FLAG_SHIFT != 0 {
        mods = mods + GHOSTTY_MODS_SHIFT;
    }
    if flags & NS_FLAG_CONTROL != 0 {
        mods = mods + GHOSTTY_MODS_CTRL;
    }
    if flags & NS_FLAG_OPTION != 0 {
        mods = mods + GHOSTTY_MODS_ALT;
    }
    if flags & NS_FLAG_COMMAND != 0 {
        mods = mods + GHOSTTY_MODS_SUPER;
    }
    if flags & NS_FLAG_CAPS != 0 {
        mods = mods + GHOSTTY_MODS_CAPS;
    }
    mods
}

/// A key as it is handed to a surface.
#[derive(Debug, PartialEq, Eq)]
pub struct KeyInput {
    pub action: ghostty_input_action_e,
    pub mods: i32,
    pub keycode: u32,
    /// The typed text, for printable input only.
    pub text: Option<String>,
    /// The first character of the key without its modifiers, or zero.
    pub unshifted_codepoint: u32,
}

/// The text that is handed on: what was typed, where it is printable.
pub open spec fn key_text(characters: Option<Seq<char>>) -> Option<Seq<char>> {
    match characters {
        Some(s) => if printable(s) {
            Some(s)
        } else {
            None
        },
        None => None,
    }
}

/// The code point of the first character, or zero.
pub open spec fn first_codepoint(unmodified: Option<Seq<char>>) -> int {
    match unmodified {
        Some(s) => if s.len() > 0 {
            s[0] as int
        } else {
            0
        },
        None => 0,
    }
}

/// The key that an event stands for. Text that is not printable is left out:
/// the surface then derives the byte from the key and its modifiers.
pub fn key_input(
    action: ghostty_input_action_e,
    flags: u64,
    keycode: u16,
    characters: Option<&str>,
    unmodified: Option<&str>,
) -> (r: KeyInput)
    ensures
        r.action == action,
        r.mods == mods_of(flags),
        r.keycode == keycode,
        opt_view(r.text) == key_text(opt_str(characters)),
        r.unshifted_codepoint == first_codepoint(opt_str(unmodified)),
{
    let text: Option<String> = match characters {
        Some(s) => {
            if is_printable_text(s) {
                Some(owned(s))
            } else {
                None
            }
        },
        None => None,
    };
    let unshifted_codepoint: u32 = match unmodified {
        Some(s) => {
            if s.unicode_len() > 0 {
                s.get_char(0) as u32
            } else {
                0
            }
        },
        None => 0,
    };
    KeyInput {
        action,
        mods: mods_from_flags(flags),
        keycode: keycode as u32,
        text,
        unshifted_codepoint,
    }
}

/// Where a command chord goes.
#[derive(Debug, Clone, Copy, PartialEq, Eq, Structural)]
pub enum ChordRoute {
    /// The menu took it.
    Menu,
    /// The surface gets it.
    Surface,
    /// Neither; the system may have it.
    System,
}

/// Where a command chord goes: the menu has first refusal, then the surface of
/// the view, where it has the keyboard. A handle of zero is no surface.
pub fn route_chord(menu_took_it: bool, surface: usize, focused: usize) -> (r: ChordRoute)
    ensures
        r == (if menu_took_it {
            ChordRoute::Menu
        } else if surface != 0 && surface == focused {
            ChordRoute::Surface
        } else {
            ChordRoute::System
        }),
{
    if menu_took_it {
        ChordRoute::Menu
    } else if surface == 0 || surface != focused {
        ChordRoute::System
    } else {
        ChordRoute::Surface
    }
}

/// Whether `s` holds the character that ends a C string.
pub open spec fn has_nul(s: Seq<char>) -> bool {
    s.contains('\0')
}

/// Whether `s` holds the character that ends a C string.
pub fn holds_nul(s: &str) -> (r: bool)
    ensures
        r == has_nul(s@),
{
    let n: usize = s.unicode_len();
    let mut i: usize = 0;
    while i < n
        invariant
            i <= n == s@.len(),
            forall|k: int| 0 <= k < i ==> s@[k] != '\0',
        decreases n - i,
    {
        if s.get_char(i) == '\0' {
            assert(s@[i as int] == '\0');
            return true;
        }
        i = i + 1;
    }
    false
}

/// What a paste hands over: the clipboard's text, or the path of its image
/// where it holds no text, or nothing at all.
pub open spec fn paste_of(text: Option<Seq<char>>, image: Option<Seq<char>>) -> Seq<char> {
    match text {
        Some(t) => if t.len() > 0 {
            t
        } else {
            match image {
                Some(p) => p,
                None => Seq::empty(),
            }
        },
        None => match image {
            Some(p) => p,
            None => Seq::empty(),
        },
    }
}

/// What a paste hands over; `None` where it could not be handed over whole.
pub fn paste(text: Option<String>, image: Option<String>) -> (r: Option<String>)
    ensures
        opt_view(r) == (if has_nul(paste_of(opt_view(text), opt_view(image))) {
            None
        } else {
            Some(paste_of(opt_view(text), opt_view(image)))
        }),
{
    let other: String = match image {
        Some(p) => p,
        None => String::new(),
    };
    let payload: String = match text {
        Some(t) => {
            if t.as_str().unicode_len() > 0 {
                t
            } else {
                other
            }
        },
        None => other,
    };
    if holds_nul(payload.as_str()) {
        None
    } else {
        Some(payload)
    }
}

/// The first text among clipboard entries.
pub open spec fn first_text(entries: Seq<Option<String>>) -> Option<Seq<char>>
    decreases entries.len(),
{
    if entries.len() == 0 {
        None
    } else {
        match entries[0] {
            Some(t) => Some(t@),
            None => first_text(entries.skip(1)),
        }
    }
}

/// What a copy puts on the clipboard: the first entry that is text. Only the
/// standard clipboard is written.
pub fn copied(clipboard: ghostty_clipboard_e, entries: &Vec<Option<String>>) -> (r: Option<String>)
    ensures
        opt_view(r) == (match clipboard {
            ghostty_clipboard_e::GHOSTTY_CLIPBOARD_STANDARD => first_text(entries@),
            ghostty_clipboard_e::GHOSTTY_CLIPBOARD_SELECTION => None,
        }),
{
    match clipboard {
        ghostty_clipboard_e::GHOSTTY_CLIPBOARD_SELECTION => None,
        ghostty_clipboard_e::GHOSTTY_CLIPBOARD_STANDARD => {
            let mut i: usize = 0;
            assert(entries@.skip(0) =~= entries@);
            while i < entries.len()
                invariant
                    i <= entries.len(),
                    clipboard is GHOSTTY_CLIPBOARD_STANDARD,
                    first_text(entries@) == first_text(entries@.skip(i as int)),
                decreases entries.len() - i,
            {
                if let Some(t) = &entries[i] {
                    return Some(t.clone());
                }
                assert(entries@.skip(i as int).skip(1) =~= entries@.skip(i + 1));
                i = i + 1;
            }
            None
        },
    }
}

/// What a terminal is started with.
#[derive(Debug, PartialEq, Eq)]
pub struct Launch {
    pub working_directory: String,
    pub command: String,
    /// What is typed into the shell: the startup command and a newline.
    pub initial_input: Option<String>,
}

/// What is typed into a terminal at its start: the startup command, as a line.
pub open spec fn typed_first(startup: Option<Seq<char>>) -> Option<Seq<char>> {
    match startup {
        Some(s) => Some(s.push('\n')),
        None => None,
    }
}

/// Whether a terminal can be started at all: none of its texts is cut short by
/// the character that ends a C string.
pub open spec fn launchable(dir: Seq<char>, shell: Seq<char>, startup: Option<Seq<char>>) -> bool {
    &&& !has_nul(dir)
    &&& !has_nul(shell)
    &&& startup is Some ==> !has_nul(startup->0)
}

/// What a terminal is started with. The startup command is typed into the
/// shell, not run in its place.
pub fn launch(spec: &TabSpec) -> (r: Result<Launch, SurfaceError>)
    ensures
        match r {
            Ok(l) => {
                &&& launchable(spec@.dir, spec@.shell, spec@.startup)
                &&& l.working_directory@ == spec@.dir
                &&& l.command@ == spec@.shell
                &&& opt_view(l.initial_input) == (match spec@.startup {
                    Some(s) => Some(s.push('\n')),
                    None => None,
                })
                &&& opt_view(l.initial_input) == typed_first(spec@.startup)
            },
            Err(e) => {
                &&& !launchable(spec@.dir, spec@.shell, spec@.startup)
                &&& e == SurfaceError::SurfaceCreateFailed
            },
        },
{
    if holds_nul(spec.dir.as_str()) || holds_nul(spec.shell.as_str()) {
        return Err(SurfaceError::SurfaceCreateFailed);
    }
    let initial_input: Option<String> = match &spec.startup {
        Some(s) => {
            if holds_nul(s.as_str()) {
                return Err(SurfaceError::SurfaceCreateFailed);
            }
            let mut typed: String = s.clone();
            typed.push('\n');
            Some(typed)
        },
        None => None,
    };
    Ok(Launch { working_directory: spec.dir.clone(), command: spec.shell.clone(), initial_input })
}

/// Each modifier key is told by a bit of its own, exactly where it is held.
pub proof fn law_modifiers_have_bits_of_their_own(flags: u64)
    ensures
        0 <= mods_of(flags) < 32,
        mods_of(flags) % 2 == 1 <==> flags & NS_FLAG_SHIFT != 0,
        mods_of(flags) / 2 % 2 == 1 <==> flags & NS_FLAG_CONTROL != 0,
        mods_of(flags) / 4 % 2 == 1 <==> flags & NS_FLAG_OPTION != 0,
        mods_of(flags) / 8 % 2 == 1 <==> flags & NS_FLAG_COMMAND != 0,
        mods_of(flags) / 16 % 2 == 1 <==> flags & NS_FLAG_CAPS != 0,
{
}

/// A key types the characters that come with it exactly where there are some
/// and none of them is a control character.
pub proof fn law_a_key_types_what_can_be_seen(s: Seq<char>, i: int)
    ensures
        key_text(Some(s)) == Some(s) || key_text(Some(s)) is None,
        key_text(None) is None,
        key_text(Some(Seq::empty())) is None,
        0 <= i < s.len() && (s[i] as int) < 0x20 ==> key_text(Some(s)) is None,
        0 <= i < s.len() && s[i] as int == 0x7f ==> key_text(Some(s)) is None,
        s.len() > 0 && (forall|k: int|
            0 <= k < s.len() ==> 0x20 <= (#[trigger] s[k]) as int && !(0x7f <= s[k] as int
                <= 0x9f)) ==> key_text(Some(s)) == Some(s),
        s.len() > 0 ==> first_codepoint(Some(s)) == s[0] as int,
        first_codepoint(Some(Seq::empty())) == 0,
        first_codepoint(None) == 0,
{
    if s.len() > 0 && (forall|k: int|
        0 <= k < s.len() ==> 0x20 <= (#[trigger] s[k]) as int && !(0x7f <= s[k] as int <= 0x9f)) {
        assert forall|k: int| 0 <= k < s.len() implies !is_control(#[trigger] s[k]) by {
            assert(0x20 <= s[k] as int && !(0x7f <= s[k] as int <= 0x9f));
        }
    }
    if 0 <= i < s.len() && ((s[i] as int) < 0x20 || s[i] as int == 0x7f) {
        assert(is_control(s[i]));
    }
}

/// Text on the clipboard comes before an image there, and an image is pasted
/// only where there is no text.
pub proof fn law_text_is_pasted_before_an_image(text: Seq<char>, image: Option<Seq<char>>)
    ensures
        text.len() > 0 ==> paste_of(Some(text), image) == text,
        paste_of(Some(Seq::empty()), image) == paste_of(None, image),
        image matches Some(p) ==> paste_of(None, image) == p,
        image is None ==> paste_of(None, image).len() == 0,
{
}

/// What is copied is the first of the entries that is a text, whatever stands
/// behind it.
pub proof fn law_the_first_text_is_copied(entries: Seq<Option<String>>, i: int)
    requires
        0 <= i < entries.len(),
        entries[i] is Some,
        forall|k: int| 0 <= k < i ==> (#[trigger] entries[k]) is None,
    ensures
        first_text(entries) == Some(entries[i]->0@),
    decreases entries.len(),
{
    if i > 0 {
        assert(entries[0] is None);
        let rest = entries.skip(1);
        assert forall|k: int| 0 <= k < i - 1 implies (#[trigger] rest[k]) is None by {
            assert(rest[k] == entries[k + 1]);
        }
        assert(rest[i - 1] == entries[i]);
        law_the_first_text_is_copied(rest, i - 1);
    }
}

/// A startup command is typed as it is written, and ended as a line; without
/// one nothing is typed.
pub proof fn law_a_startup_command_is_typed_as_a_line(s: Seq<char>)
    ensures
        typed_first(Some(s)) is Some,
        typed_first(Some(s))->0.last() == '\n',
        typed_first(Some(s))->0.drop_last() == s,
        typed_first(None) is None,
{
    assert(s.push('\n').drop_last() =~= s);
}

/// What a C string cannot hold is never handed to a terminal: not in its
/// directory, its shell or its startup command.
pub proof fn law_no_nul_reaches_a_terminal(
    dir: Seq<char>,
    shell: Seq<char>,
    startup: Seq<char>,
    i: int,
)
    ensures
        launchable(dir, shell, Some(startup)) && 0 <= i < dir.len() ==> dir[i] as int != 0,
        launchable(dir, shell, Some(startup)) && 0 <= i < shell.len() ==> shell[i] as int != 0,
        launchable(dir, shell, Some(startup)) && 0 <= i < startup.len() ==> startup[i] as int != 0,
        launchable(dir, shell, None) || exists|k: int|
            (0 <= k < dir.len() && dir[k] == '\0') || (0 <= k < shell.len() && shell[k] == '\0'),
{
    if 0 <= i < dir.len() && dir[i] == '\0' {
        assert(dir.contains('\0'));
    }
    if 0 <= i < shell.len() && shell[i] == '\0' {
        assert(shell.contains('\0'));
    }
    if 0 <= i < startup.len() && startup[i] == '\0' {
        assert(startup.contains('\0'));
    }
    if dir.contains('\0') {
        let k = choose|k: int| 0 <= k < dir.len() && dir[k] == '\0';
        assert(0 <= k < dir.len() && dir[k] == '\0');
    }
    if shell.contains('\0') {
        let k = choose|k: int| 0 <= k < shell.len() && shell[k] == '\0';
        assert(0 <= k < shell.len() && shell[k] == '\0');
    }
}

} // verus!
