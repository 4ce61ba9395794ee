use warden::ffi::{
    attention, ghostty_action_s, ghostty_action_u, ghostty_clipboard_e, ghostty_clipboard_request_e,
    ghostty_input_action_e, ghostty_input_mouse_button_e, ghostty_input_mouse_state_e,
    ghostty_platform_e, ghostty_surface_context_e, ghostty_target_s, Attention,
    GHOSTTY_ACTION_DESKTOP_NOTIFICATION, GHOSTTY_ACTION_MOUSE_SHAPE, GHOSTTY_ACTION_OPEN_URL,
    GHOSTTY_ACTION_RING_BELL, GHOSTTY_ACTION_SHOW_CHILD_EXITED, GHOSTTY_TARGET_SURFACE,
};
use warden::input::{
    copied, is_printable_text, key_input, launch, mods_from_flags, paste, route_chord, ChordRoute,
    NS_FLAG_CAPS, NS_FLAG_COMMAND, NS_FLAG_CONTROL, NS_FLAG_OPTION, NS_FLAG_SHIFT,
};
use warden::surface::{SurfaceError, TabSpec};

/// An action whose payload starts with the given bytes.
fn action_with(tag: u32, payload: &[u8]) -> ghostty_action_s {
    let mut bytes = [0u8; 24];
    bytes[..payload.len()].copy_from_slice(payload);
    ghostty_action_s {
        tag,
        action: ghostty_action_u::new(bytes),
    }
}

#[test]
fn ring_bell_tag_is_recognised_and_not_a_notification() {
    let bell = action_with(GHOSTTY_ACTION_RING_BELL, &[]);
    assert!(bell.is_ring_bell());
    assert!(bell.desktop_notification().is_none());
}

#[test]
fn unknown_action_tag_decodes_to_nothing() {
    let other = action_with(9999, &[]);
    assert!(!other.is_ring_bell());
    assert!(other.desktop_notification().is_none());
    assert!(other.open_url().is_none());
    assert!(other.child_exited().is_none());
    assert!(other.mouse_shape().is_none());
}

#[test]
fn decodes_child_exited_exit_code() {
    let mut payload = [0u8; 16];
    payload[..4].copy_from_slice(&130u32.to_le_bytes());
    payload[8..].copy_from_slice(&4_200u64.to_le_bytes());
    let action = action_with(GHOSTTY_ACTION_SHOW_CHILD_EXITED, &payload);
    assert_eq!(action.child_exited(), Some(130));
    assert!(action.open_url().is_none());
}

#[test]
fn decodes_mouse_shape_enum() {
    let action = action_with(GHOSTTY_ACTION_MOUSE_SHAPE, &3u32.to_le_bytes());
    assert_eq!(action.mouse_shape(), Some(3));
    assert!(action.child_exited().is_none());
}

#[test]
fn target_surface_is_extracted_only_for_surface_tag() {
    let surface: usize = 0xbeef;
    let surf_target = ghostty_target_s {
        tag: GHOSTTY_TARGET_SURFACE,
        surface,
    };
    assert_eq!(surf_target.surface(), Some(surface));
    let app_target = ghostty_target_s { tag: 0, surface };
    assert_eq!(app_target.surface(), None);
}

#[test]
fn a_link_needs_an_address_and_a_length() {
    let url = |address: u64, len: u64| {
        let mut payload = [0u8; 24];
        payload[0] = 1;
        payload[8..16].copy_from_slice(&address.to_le_bytes());
        payload[16..].copy_from_slice(&len.to_le_bytes());
        action_with(GHOSTTY_ACTION_OPEN_URL, &payload).open_url()
    };
    let found = url(0x0102_0304_0506_0708, 25).unwrap();
    assert_eq!((found.kind, found.url, found.len), (1, 0x0102_0304_0506_0708, 25));
    assert!(url(0, 7).is_none());
    assert!(url(9, 0).is_none());
}

#[test]
fn only_signals_of_a_surface_reach_a_tab() {
    let surface = ghostty_target_s {
        tag: GHOSTTY_TARGET_SURFACE,
        surface: 7,
    };
    let app = ghostty_target_s { tag: 0, surface: 7 };
    let bell = action_with(GHOSTTY_ACTION_RING_BELL, &[]);
    assert_eq!(attention(&surface, &bell), Attention::Bell { surface: 7 });
    assert_eq!(attention(&app, &bell), Attention::Unhandled);
    let mut payload = [0u8; 16];
    payload[..8].copy_from_slice(&0x1000u64.to_le_bytes());
    payload[8..].copy_from_slice(&0x2000u64.to_le_bytes());
    let note = action_with(GHOSTTY_ACTION_DESKTOP_NOTIFICATION, &payload);
    match attention(&surface, &note) {
        Attention::Notification { surface, texts } => {
            assert_eq!(surface, 7);
            assert_eq!((texts.title, texts.body), (0x1000, 0x2000));
        }
        other => panic!("expected a notification, got {other:?}"),
    }
}

#[test]
fn enum_numbers_are_those_of_the_header() {
    assert_eq!(ghostty_platform_e::GHOSTTY_PLATFORM_MACOS.code(), 1);
    assert_eq!(
        ghostty_surface_context_e::GHOSTTY_SURFACE_CONTEXT_SPLIT.code(),
        2
    );
    assert_eq!(ghostty_input_action_e::GHOSTTY_ACTION_PRESS.code(), 1);
    assert_eq!(ghostty_input_mouse_state_e::GHOSTTY_MOUSE_RELEASE.code(), 0);
    assert_eq!(
        ghostty_input_mouse_button_e::GHOSTTY_MOUSE_MIDDLE.code(),
        3
    );
    assert_eq!(ghostty_clipboard_e::GHOSTTY_CLIPBOARD_SELECTION.code(), 1);
    assert_eq!(
        ghostty_clipboard_request_e::GHOSTTY_CLIPBOARD_REQUEST_OSC_52_WRITE.code(),
        2
    );
}

#[test]
fn printable_text_excludes_control_chars() {
    assert!(is_printable_text("a"));
    assert!(is_printable_text("é"));
    assert!(is_printable_text("hello"));
    assert!(!is_printable_text("\u{06}"));
    assert!(!is_printable_text("\u{03}"));
    assert!(!is_printable_text("\u{1b}"));
    assert!(!is_printable_text(""));
}

#[test]
fn modifier_flags_map_one_to_one() {
    assert_eq!(mods_from_flags(0), 0);
    assert_eq!(mods_from_flags(NS_FLAG_SHIFT), 1);
    assert_eq!(mods_from_flags(NS_FLAG_CONTROL), 2);
    assert_eq!(mods_from_flags(NS_FLAG_OPTION), 4);
    assert_eq!(mods_from_flags(NS_FLAG_COMMAND | NS_FLAG_CAPS), 24);
}

#[test]
fn a_control_chord_carries_no_text() {
    let press = ghostty_input_action_e::GHOSTTY_ACTION_PRESS;
    let k = key_input(press, NS_FLAG_CONTROL, 3, Some("\u{06}"), Some("f"));
    assert_eq!(k.text, None);
    assert_eq!(k.unshifted_codepoint, 'f' as u32);
    assert_eq!((k.mods, k.keycode), (2, 3));
    let k = key_input(press, NS_FLAG_SHIFT, 3, Some("F"), None);
    assert_eq!(k.text.as_deref(), Some("F"));
    assert_eq!(k.unshifted_codepoint, 0);
}

#[test]
fn the_menu_has_first_refusal_of_a_chord() {
    assert_eq!(route_chord(true, 5, 5), ChordRoute::Menu);
    assert_eq!(route_chord(false, 5, 5), ChordRoute::Surface);
    assert_eq!(route_chord(false, 5, 6), ChordRoute::System);
    assert_eq!(route_chord(false, 0, 0), ChordRoute::System);
}

#[test]
fn text_wins_over_an_image_on_the_clipboard() {
    let s = |x: &str| Some(x.to_string());
    assert_eq!(paste(s("text"), s("/tmp/i.png")), s("text"));
    assert_eq!(paste(s(""), s("/tmp/i.png")), s("/tmp/i.png"));
    assert_eq!(paste(None, None), s(""));
    assert_eq!(paste(s("cut\0short"), None), None);
}

#[test]
fn only_the_standard_clipboard_is_written() {
    let entries = vec![None, Some("a".to_string()), Some("b".to_string())];
    assert_eq!(
        copied(ghostty_clipboard_e::GHOSTTY_CLIPBOARD_STANDARD, &entries).as_deref(),
        Some("a")
    );
    assert_eq!(
        copied(ghostty_clipboard_e::GHOSTTY_CLIPBOARD_SELECTION, &entries),
        None
    );
    assert_eq!(
        copied(
            ghostty_clipboard_e::GHOSTTY_CLIPBOARD_STANDARD,
            &vec![None]
        ),
        None
    );
}

fn tab(dir: &str, shell: &str, startup: Option<&str>) -> TabSpec {
    TabSpec {
        id: "t".to_string(),
        title: "t".to_string(),
        dir: dir.to_string(),
        shell: shell.to_string(),
        startup: startup.map(String::from),
        group: None,
        probe: None,
        kill: None,
        tree: false,
        tree_path: Vec::new(),
        split: None,
    }
}

#[test]
fn a_startup_command_is_typed_with_a_newline() {
    let l = launch(&tab("/tmp", "fish -l", Some("amux"))).unwrap();
    assert_eq!(l.working_directory, "/tmp");
    assert_eq!(l.command, "fish -l");
    assert_eq!(l.initial_input.as_deref(), Some("amux\n"));
    assert_eq!(launch(&tab("/tmp", "sh", None)).unwrap().initial_input, None);
}

#[test]
fn a_text_that_a_c_string_cannot_hold_is_refused() {
    let failed = Err(SurfaceError::SurfaceCreateFailed);
    assert_eq!(launch(&tab("/t\0mp", "sh", None)), failed);
    assert_eq!(launch(&tab("/tmp", "s\0h", None)), failed);
    assert_eq!(launch(&tab("/tmp", "sh", Some("a\0"))), failed);
    assert_eq!(
        SurfaceError::AppCreateFailed.message(),
        "libghostty app creation failed"
    );
    assert_eq!(
        SurfaceError::SurfaceCreateFailed.message(),
        "libghostty surface creation failed"
    );
}
