//! The values of the libghostty embedding interface that the application reads
//! and writes: the numbers of its C enums, and the payloads of the actions it
//! hands over, as the bytes it lays them out in on a 64-bit little-endian
//! machine.
#![allow(non_camel_case_types)]

use vstd::prelude::*;

verus! {

/// The platform a surface is drawn on.
#[derive(Debug, Clone, Copy, PartialEq, Eq, Structural)]
pub enum ghostty_platform_e {
    GHOSTTY_PLATFORM_INVALID,
    GHOSTTY_PLATFORM_MACOS,
    GHOSTTY_PLATFORM_IOS,
}

impl ghostty_platform_e {
    /// The number of the value in the C interface.
    pub open spec fn number(self) -> i32 {
        match self {
            ghostty_platform_e::GHOSTTY_PLATFORM_INVALID => 0,
            ghostty_platform_e::GHOSTTY_PLATFORM_MACOS => 1,
            ghostty_platform_e::GHOSTTY_PLATFORM_IOS => 2,
        }
    }

    /// The number of the value in the C interface.
    pub fn code(self) -> (r: i32)
        ensures
            r == self.number(),
    {
        match self {
            ghostty_platform_e::GHOSTTY_PLATFORM_INVALID => 0,
            ghostty_platform_e::GHOSTTY_PLATFORM_MACOS => 1,
            ghostty_platform_e::GHOSTTY_PLATFORM_IOS => 2,
        }
    }
}

/// What a surface is created as.
#[derive(Debug, Clone, Copy, PartialEq, Eq, Structural)]
pub enum ghostty_surface_context_e {
    GHOSTTY_SURFACE_CONTEXT_WINDOW,
    GHOSTTY_SURFACE_CONTEXT_TAB,
    GHOSTTY_SURFACE_CONTEXT_SPLIT,
}

impl ghostty_surface_context_e {
    /// The number of the value in the C interface.
    pub open spec fn number(self) -> i32 {
        match self {
            ghostty_surface_context_e::GHOSTTY_SURFACE_CONTEXT_WINDOW => 0,
            ghostty_surface_context_e::GHOSTTY_SURFACE_CONTEXT_TAB => 1,
            ghostty_surface_context_e::GHOSTTY_SURFACE_CONTEXT_SPLIT => 2,
        }
    }

    /// The number of the value in the C interface.
    pub fn code(self) -> (r: i32)
        ensures
            r == self.number(),
    {
        match self {
            ghostty_surface_context_e::GHOSTTY_SURFACE_CONTEXT_WINDOW => 0,
            ghostty_surface_context_e::GHOSTTY_SURFACE_CONTEXT_TAB => 1,
            ghostty_surface_context_e::GHOSTTY_SURFACE_CONTEXT_SPLIT => 2,
        }
    }
}

/// What a key does.
#[derive(Debug, Clone, Copy, PartialEq, Eq, Structural)]
pub enum ghostty_input_action_e {
    GHOSTTY_ACTION_RELEASE,
    GHOSTTY_ACTION_PRESS,
    GHOSTTY_ACTION_REPEAT,
}

impl ghostty_input_action_e {
    /// The number of the value in the C interface.
    pub open spec fn number(self) -> i32 {
        match self {
            ghostty_input_action_e::GHOSTTY_ACTION_RELEASE => 0,
            ghostty_input_action_e::GHOSTTY_ACTION_PRESS => 1,
            ghostty_input_action_e::GHOSTTY_ACTION_REPEAT => 2,
        }
    }

    /// The number of the value in the C interface.
    pub fn code(self) -> (r: i32)
        ensures
            r == self.number(),
    {
        match self {
            ghostty_input_action_e::GHOSTTY_ACTION_RELEASE => 0,
            ghostty_input_action_e::GHOSTTY_ACTION_PRESS => 1,
            ghostty_input_action_e::GHOSTTY_ACTION_REPEAT => 2,
        }
    }
}

/// What a mouse button does.
#[derive(Debug, Clone, Copy, PartialEq, Eq, Structural)]
pub enum ghostty_input_mouse_state_e {
    GHOSTTY_MOUSE_RELEASE,
    GHOSTTY_MOUSE_PRESS,
}

impl ghostty_input_mouse_state_e {
    /// The number of the value in the C interface.
    pub open spec fn number(self) -> i32 {
        match self {
            ghostty_input_mouse_state_e::GHOSTTY_MOUSE_RELEASE => 0,
            ghostty_input_mouse_state_e::GHOSTTY_MOUSE_PRESS => 1,
        }
    }

    /// The number of the value in the C interface.
    pub fn code(self) -> (r: i32)
        ensures
            r == self.number(),
    {
        match self {
            ghostty_input_mouse_state_e::GHOSTTY_MOUSE_RELEASE => 0,
            ghostty_input_mouse_state_e::GHOSTTY_MOUSE_PRESS => 1,
        }
    }
}

/// A mouse button.
#[derive(Debug, Clone, Copy, PartialEq, Eq, Structural)]
pub enum ghostty_input_mouse_button_e {
    GHOSTTY_MOUSE_UNKNOWN,
    GHOSTTY_MOUSE_LEFT,
    GHOSTTY_MOUSE_RIGHT,
    GHOSTTY_MOUSE_MIDDLE,
}

impl ghostty_input_mouse_button_e {
    /// The number of the value in the C interface.
    pub open spec fn number(self) -> i32 {
        match self {
            ghostty_input_mouse_button_e::GHOSTTY_MOUSE_UNKNOWN => 0,
            ghostty_input_mouse_button_e::GHOSTTY_MOUSE_LEFT => 1,
            ghostty_input_mouse_button_e::GHOSTTY_MOUSE_RIGHT => 2,
            ghostty_input_mouse_button_e::GHOSTTY_MOUSE_MIDDLE => 3,
        }
    }

    /// The number of the value in the C interface.
    pub fn code(self) -> (r: i32)
        ensures
            r == self.number(),
    {
        match self {
            ghostty_input_mouse_button_e::GHOSTTY_MOUSE_UNKNOWN => 0,
            ghostty_input_mouse_button_e::GHOSTTY_MOUSE_LEFT => 1,
            ghostty_input_mouse_button_e::GHOSTTY_MOUSE_RIGHT => 2,
            ghostty_input_mouse_button_e::GHOSTTY_MOUSE_MIDDLE => 3,
        }
    }
}

/// A clipboard.
#[derive(Debug, Clone, Copy, PartialEq, Eq, Structural)]
pub enum ghostty_clipboard_e {
    GHOSTTY_CLIPBOARD_STANDARD,
    GHOSTTY_CLIPBOARD_SELECTION,
}

impl ghostty_clipboard_e {
    /// The number of the value in the C interface.
    pub open spec fn number(self) -> i32 {
        match self {
            ghostty_clipboard_e::GHOSTTY_CLIPBOARD_STANDARD => 0,
            ghostty_clipboard_e::GHOSTTY_CLIPBOARD_SELECTION => 1,
        }
    }

    /// The number of the value in the C interface.
    pub fn code(self) -> (r: i32)
        ensures
            r == self.number(),
    {
        match self {
            ghostty_clipboard_e::GHOSTTY_CLIPBOARD_STANDARD => 0,
            ghostty_clipboard_e::GHOSTTY_CLIPBOARD_SELECTION => 1,
        }
    }
}

/// What a program wants of the clipboard.
#[derive(Debug, Clone, Copy, PartialEq, Eq, Structural)]
pub enum ghostty_clipboard_request_e {
    GHOSTTY_CLIPBOARD_REQUEST_PASTE,
    GHOSTTY_CLIPBOARD_REQUEST_OSC_52_READ,
    GHOSTTY_CLIPBOARD_REQUEST_OSC_52_WRITE,
}

impl ghostty_clipboard_request_e {
    /// The number of the value in the C interface.
    pub open spec fn number(self) -> i32 {
        match self {
            ghostty_clipboard_request_e::GHOSTTY_CLIPBOARD_REQUEST_PASTE => 0,
            ghostty_clipboard_request_e::GHOSTTY_CLIPBOARD_REQUEST_OSC_52_READ => 1,
            ghostty_clipboard_request_e::GHOSTTY_CLIPBOARD_REQUEST_OSC_52_WRITE => 2,
        }
    }

    /// The number of the value in the C interface.
    pub fn code(self) -> (r: i32)
        ensures
            r == self.number(),
    {
        match self {
            ghostty_clipboard_request_e::GHOSTTY_CLIPBOARD_REQUEST_PASTE => 0,
            ghostty_clipboard_request_e::GHOSTTY_CLIPBOARD_REQUEST_OSC_52_READ => 1,
            ghostty_clipboard_request_e::GHOSTTY_CLIPBOARD_REQUEST_OSC_52_WRITE => 2,
        }
    }
}

/// Modifier keys, as bits that add up.
pub const GHOSTTY_MODS_NONE: i32 = 0;

pub const GHOSTTY_MODS_SHIFT: i32 = 1;

pub const GHOSTTY_MODS_CTRL: i32 = 2;

pub const GHOSTTY_MODS_ALT: i32 = 4;

pub const GHOSTTY_MODS_SUPER: i32 = 8;

pub const GHOSTTY_MODS_CAPS: i32 = 16;

/// The tags of the actions that are acted on. Tags are compared as numbers, so
/// that one that is unknown is simply not handled.
pub const GHOSTTY_ACTION_DESKTOP_NOTIFICATION: u32 = 31;

pub const GHOSTTY_ACTION_MOUSE_SHAPE: u32 = 36;

pub const GHOSTTY_ACTION_RING_BELL: u32 = 50;

pub const GHOSTTY_ACTION_OPEN_URL: u32 = 55;

pub const GHOSTTY_ACTION_SHOW_CHILD_EXITED: u32 = 56;

/// The tag of a target that is a surface.
pub const GHOSTTY_TARGET_SURFACE: u32 = 1;

/// The payload of an action: which fields it holds, its tag says.
#[derive(Debug, Clone, Copy)]
pub struct ghostty_action_u {
    bytes: [u8; 24],
}

/// The 32-bit number at offset `at`.
pub open spec fn u32_at(b: Seq<u8>, at: int) -> int {
    b[at] + 0x100 * b[at + 1] + 0x10000 * b[at + 2] + 0x1000000 * b[at + 3]
}

/// The 64-bit number at offset `at`.
pub open spec fn u64_at(b: Seq<u8>, at: int) -> int {
    u32_at(b, at) + 0x100000000 * u32_at(b, at + 4)
}

impl ghostty_action_u {
    /// The bytes of the payload.
    pub closed spec fn payload(&self) -> Seq<u8> {
        self.bytes@
    }

    /// A payload of the given bytes.
    pub fn new(bytes: [u8; 24]) -> (r: ghostty_action_u)
        ensures
            r.payload() == bytes@,
    {
        ghostty_action_u { bytes }
    }

    /// The 32-bit number at offset `at`.
    fn read_u32(&self, at: usize) -> (r: u32)
        requires
            at <= 20,
        ensures
            r == u32_at(self.payload(), at as int),
    {
        let a: u32 = self.bytes[at] as u32;
        let b: u32 = self.bytes[at + 1] as u32;
        let c: u32 = self.bytes[at + 2] as u32;
        let d: u32 = self.bytes[at + 3] as u32;
        a + 0x100 * b + 0x10000 * c + 0x1000000 * d
    }

    /// The 64-bit number at offset `at`.
    fn read_u64(&self, at: usize) -> (r: u64)
        requires
            at <= 16,
        ensures
            r == u64_at(self.payload(), at as int),
    {
        let low: u64 = self.read_u32(at) as u64;
        let high: u64 = self.read_u32(at + 4) as u64;
        low + 0x100000000 * high
    }
}

/// An action that a surface hands over.
#[derive(Debug, Clone, Copy)]
pub struct ghostty_action_s {
    pub tag: u32,
    pub action: ghostty_action_u,
}

/// The payload of a desktop notification: the addresses of its two texts, zero
/// where there is none. They are only good during the call.
#[derive(Debug, Clone, Copy, PartialEq, Eq, Structural)]
pub struct ghostty_action_desktop_notification_s {
    pub title: u64,
    pub body: u64,
}

/// The payload of a link to open: the address and length of its text, which
/// nothing terminates.
#[derive(Debug, Clone, Copy, PartialEq, Eq, Structural)]
pub struct ghostty_action_open_url_s {
    pub kind: u32,
    pub url: u64,
    pub len: u64,
}

/// The payload of a child that exited.
#[derive(Debug, Clone, Copy, PartialEq, Eq, Structural)]
pub struct ghostty_action_child_exited_s {
    pub exit_code: u32,
    pub runtime_ms: u64,
}

impl ghostty_action_s {
    /// Whether the terminal rang its bell.
    pub fn is_ring_bell(&self) -> (r: bool)
        ensures
            r == (self.tag == GHOSTTY_ACTION_RING_BELL),
    {
        self.tag == GHOSTTY_ACTION_RING_BELL
    }

    /// The notification, where the action is one.
    pub fn desktop_notification(&self) -> (r: Option<ghostty_action_desktop_notification_s>)
        ensures
            r is Some <==> self.tag == GHOSTTY_ACTION_DESKTOP_NOTIFICATION,
            r is Some ==> {
                &&& r->0.title == u64_at(self.action.payload(), 0)
                &&& r->0.body == u64_at(self.action.payload(), 8)
            },
    {
        if self.tag == GHOSTTY_ACTION_DESKTOP_NOTIFICATION {
            Some(
                ghostty_action_desktop_notification_s {
                    title: self.action.read_u64(0),
                    body: self.action.read_u64(8),
                },
            )
        } else {
            None
        }
    }

    /// The link to open, where the action is one. One without an address or
    /// without a length is dropped.
    pub fn open_url(&self) -> (r: Option<ghostty_action_open_url_s>)
        ensures
            r is Some <==> {
                &&& self.tag == GHOSTTY_ACTION_OPEN_URL
                &&& u64_at(self.action.payload(), 8) != 0
                &&& u64_at(self.action.payload(), 16) != 0
            },
            r is Some ==> {
                &&& r->0.kind == u32_at(self.action.payload(), 0)
                &&& r->0.url == u64_at(self.action.payload(), 8)
                &&& r->0.len == u64_at(self.action.payload(), 16)
            },
    {
        if self.tag != GHOSTTY_ACTION_OPEN_URL {
            return None;
        }
        let url: u64 = self.action.read_u64(8);
        let len: u64 = self.action.read_u64(16);
        if url == 0 || len == 0 {
            return None;
        }
        Some(ghostty_action_open_url_s { kind: self.action.read_u32(0), url, len })
    }

    /// The payload of a child that exited, where the action says so.
    fn exited(&self) -> (r: Option<ghostty_action_child_exited_s>)
        ensures
            r is Some <==> self.tag == GHOSTTY_ACTION_SHOW_CHILD_EXITED,
            r is Some ==> {
                &&& r->0.exit_code == u32_at(self.action.payload(), 0)
                &&& r->0.runtime_ms == u64_at(self.action.payload(), 8)
            },
    {
        if self.tag == GHOSTTY_ACTION_SHOW_CHILD_EXITED {
            Some(
                ghostty_action_child_exited_s {
                    exit_code: self.action.read_u32(0),
                    runtime_ms: self.action.read_u64(8),
                },
            )
        } else {
            None
        }
    }

    /// The exit code of the child, where the action says that it exited.
    pub fn child_exited(&self) -> (r: Option<u32>)
        ensures
            r == (if self.tag == GHOSTTY_ACTION_SHOW_CHILD_EXITED {
                Some(u32_at(self.action.payload(), 0) as u32)
            } else {
                None
            }),
    {
        match self.exited() {
            Some(c) => Some(c.exit_code),
            None => None,
        }
    }

    /// The shape of the mouse cursor, where the action sets it.
    pub fn mouse_shape(&self) -> (r: Option<u32>)
        ensures
            r == (if self.tag == GHOSTTY_ACTION_MOUSE_SHAPE {
                Some(u32_at(self.action.payload(), 0) as u32)
            } else {
                None
            }),
    {
        if self.tag == GHOSTTY_ACTION_MOUSE_SHAPE {
            Some(self.action.read_u32(0))
        } else {
            None
        }
    }
}

/// What an action is about: a surface, named by its handle, or the application.
#[derive(Debug, Clone, Copy)]
pub struct ghostty_target_s {
    pub tag: u32,
    pub surface: usize,
}

impl ghostty_target_s {
    /// The surface that the action is about, if it is about one.
    pub fn surface(&self) -> (r: Option<usize>)
        ensures
            r == (if self.tag == GHOSTTY_TARGET_SURFACE {
                Some(self.surface)
            } else {
                None
            }),
    {
        if self.tag == GHOSTTY_TARGET_SURFACE {
            Some(self.surface)
        } else {
            None
        }
    }
}

/// What to do about an action.
#[derive(Debug, Clone, Copy, PartialEq, Eq, Structural)]
pub enum Attention {
    /// Say that it is not handled.
    Unhandled,
    /// The surface rang its bell.
    Bell { surface: usize },
    /// The surface raised a notification; its texts are at these addresses.
    Notification { surface: usize, texts: ghostty_action_desktop_notification_s },
}

/// What to do about an action: only a bell and a notification of a surface
/// reach a tab.
pub fn attention(target: &ghostty_target_s, action: &ghostty_action_s) -> (r: Attention)
    ensures
        r is Bell <==> target.tag == GHOSTTY_TARGET_SURFACE && action.tag
            == GHOSTTY_ACTION_RING_BELL,
        r is Notification <==> target.tag == GHOSTTY_TARGET_SURFACE && action.tag
            == GHOSTTY_ACTION_DESKTOP_NOTIFICATION,
        match r {
            Attention::Unhandled => true,
            Attention::Bell { surface } => surface == target.surface,
            Attention::Notification { surface, texts } => {
                &&& surface == target.surface
                &&& texts.title == u64_at(action.action.payload(), 0)
                &&& texts.body == u64_at(action.action.payload(), 8)
            },
        },
{
    match target.surface() {
        None => Attention::Unhandled,
        Some(surface) => {
            if action.is_ring_bell() {
                Attention::Bell { surface }
            } else {
                match action.desktop_notification() {
                    Some(texts) => Attention::Notification { surface, texts },
                    None => Attention::Unhandled,
                }
            }
        },
    }
}

/// Numbers lie in a payload with their lowest byte first: each byte is found
/// again in its place.
pub proof fn law_the_lowest_byte_comes_first(b: Seq<u8>, at: int)
    ensures
        u32_at(b, at) % 0x100 == b[at],
        u32_at(b, at) / 0x100 % 0x100 == b[at + 1],
        u32_at(b, at) / 0x10000 % 0x100 == b[at + 2],
        u32_at(b, at) / 0x1000000 == b[at + 3],
        u64_at(b, at) % 0x100000000 == u32_at(b, at),
        u64_at(b, at) / 0x100000000 == u32_at(b, at + 4),
{
}

} // verus!
