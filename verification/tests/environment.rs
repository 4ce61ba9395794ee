use warden::cli::{command, Command};
use warden::fmt::{
    fmt_outcome, format_str, format_text, formattable, rewrite, try_format_str, try_format_text,
    FmtOutcome,
};
use warden::login::{
    adopted_path, config_path, extract_sentinel_path, login_shell, PATH_SENTINEL_END,
    PATH_SENTINEL_START,
};
use warden::menu::{tab_menu, tab_request, window_menu, TabMenuItem, TabRequest, WindowMenuItem};
use warden::model::TabDigitKeys;
use warden::nesting::nesting_depth;
use warden::notify::handle;
use warden::plan::WindowMenuEntry;
use warden::surface::SurfaceSignal;
use warden::watch::Watcher;

#[test]
fn extract_sentinel_path_pulls_path_from_noisy_output() {
    let out = format!(
        "Welcome back!\n{PATH_SENTINEL_START}/opt/homebrew/bin:/usr/bin:/bin\n{PATH_SENTINEL_END}\nnvm: loaded\n"
    );
    assert_eq!(
        extract_sentinel_path(&out).as_deref(),
        Some("/opt/homebrew/bin:/usr/bin:/bin")
    );
}

#[test]
fn extract_sentinel_path_none_without_both_sentinels() {
    assert_eq!(extract_sentinel_path("command not found"), None);
    assert_eq!(
        extract_sentinel_path(&format!("{PATH_SENTINEL_START}/usr/bin")),
        None
    );
}

#[test]
fn an_empty_search_path_is_not_adopted() {
    let empty = format!("{PATH_SENTINEL_START} \n{PATH_SENTINEL_END}");
    assert_eq!(extract_sentinel_path(&empty).as_deref(), Some(""));
    assert_eq!(adopted_path(&empty), None);
    let full = format!("x{PATH_SENTINEL_START}/bin{PATH_SENTINEL_END}");
    assert_eq!(adopted_path(&full).as_deref(), Some("/bin"));
    assert_eq!(adopted_path("/bin"), None);
}

#[test]
fn login_shell_uses_shell_env_with_login_flag() {
    assert_eq!(
        login_shell(Some("/opt/homebrew/bin/fish")),
        "/opt/homebrew/bin/fish -l"
    );
    assert_eq!(login_shell(Some("")), "/bin/zsh -l");
    assert_eq!(login_shell(None), "/bin/zsh -l");
}

#[test]
fn config_path_respects_env() {
    let home = Some("/home/me".to_string());
    assert_eq!(
        config_path(Some("/custom/warden.toml"), &home),
        "/custom/warden.toml"
    );
    assert_eq!(
        config_path(Some(""), &home),
        "/home/me/.config/warden/config.toml",
        "set but empty falls through"
    );
    assert_eq!(
        config_path(None, &home),
        "/home/me/.config/warden/config.toml"
    );
}

#[test]
fn indents_nested_tables_and_aligns() {
    let out = format_str("a=1\n[[w]]\nx=2\n");
    assert_eq!(out, "a = 1\n[[w]]\n  x = 2\n");
}

#[test]
fn is_idempotent() {
    let messy = "a=1\n[[w]]\nx=2\ntitle=\"t\"\n";
    let once = format_str(messy);
    assert_eq!(format_str(&once), once);
}

#[test]
fn golden_house_style_on_windows_groups_comments() {
    let input = r##"# header
shell="fish"
[[window]]
title="w"
colour="#0f8a8a"
[[window.tab]]
dir="/tmp"
cmd="" # opt out
[[window.group]]
name="g"
[[window.group.tab]]
dir="/etc"
"##;
    let expected = r##"# header
shell = "fish"
[[window]]
  title  = "w"
  colour = "#0f8a8a"
  [[window.tab]]
    dir = "/tmp"
    cmd = ""     # opt out
  [[window.group]]
    name = "g"
    [[window.group.tab]]
      dir = "/etc"
"##;
    assert_eq!(format_str(input), expected);
}

#[test]
fn a_formatted_file_is_not_written_again() {
    let once = format_text("a=1\n[[w]]\nx=2\n").unwrap();
    assert_eq!(once, "a = 1\n[[w]]\n  x = 2\n");
    assert_eq!(format_text(&once), None);
    assert_eq!(rewrite("a", "b".to_string()).as_deref(), Some("b"));
    assert_eq!(rewrite("a", "a".to_string()), None);
}

#[test]
fn only_what_nests_moderately_is_formatted() {
    let nested = |n: usize| format!("a = {}{}\n", "[".repeat(n), "]".repeat(n));
    assert_eq!(try_format_str(&nested(3)).as_deref(), Some("a = [[[]]]\n"));
    assert!(try_format_str(&nested(256)).is_some());
    assert_eq!(try_format_str(&nested(257)), None);
    assert_eq!(try_format_text(&nested(257)), None);
    assert_eq!(try_format_text("a=1\n"), Some(Some("a = 1\n".to_string())));
    assert_eq!(try_format_text("a = 1\n"), Some(None));
    assert_eq!(try_format_str(&format!("a = {}", "{a=".repeat(300))), None);
    let tables = "[[window]]\n  [[window.tab]]\n    dir = \"/tmp\"\n".repeat(400);
    assert_eq!(try_format_str(&tables).as_deref(), Some(tables.as_str()));
    assert!(formattable("[[w]]\n"));
    let late = format!("a = [\n{}", "[[x\n".repeat(200));
    assert!(!formattable(&late), "a line may go on with the value above it");
}

#[test]
fn brackets_that_are_closed_or_quoted_nest_nothing() {
    assert_eq!(nesting_depth(""), 0);
    assert_eq!(nesting_depth("[a.b]\n[[c]] # [\n"), 0);
    assert_eq!(nesting_depth("a = [[], [1, [2.5]]] # [[[\n"), 3);
    assert_eq!(nesting_depth("a = [{ b = { c = [] } }]"), 4);
    assert_eq!(nesting_depth("a = \"[{\\\"[\"\nb = '{{'\nc = [1]\n"), 1);
    assert_eq!(nesting_depth("a = \"\"\"\n[[\\\"\"\"\"\nb = []\n"), 1);
    assert_eq!(nesting_depth("a = '''[[''' # [\n"), 0);
    assert_eq!(nesting_depth("a = [true, -1, +0.5]\nb = { c = false }\n[d]\n"), 1);
    assert_eq!(nesting_depth("a = [tru]\n[b]\n"), 2);
    // From what is not written plainly on, every opener counts.
    assert_eq!(nesting_depth("a = \"[[\n[[b]]\n"), 4);
    assert_eq!(nesting_depth("a = [,]\n[b]\n[c]\n"), 3);
    assert_eq!(nesting_depth("a = '''[["), 2);
    let flat = format!("a = [{}]\n", "[], ".repeat(300));
    assert!(try_format_str(&flat).is_some());
    let shell = format!("cmd = \"f() {{ true; }}\"\n{}", "[[w]]\n".repeat(400));
    assert_eq!(try_format_str(&shell).as_deref(), Some(shell.as_str()));
}

#[test]
fn a_check_reports_and_never_rewrites() {
    let outcome = fmt_outcome(true, true, true);
    assert_eq!(outcome, FmtOutcome::WouldReformat);
    assert_eq!(outcome.exit_code(), 1);
    let outcome = fmt_outcome(true, true, false);
    assert_eq!(outcome, FmtOutcome::Clean);
    assert_eq!(outcome.exit_code(), 0);
    let outcome = fmt_outcome(true, false, true);
    assert_eq!(outcome, FmtOutcome::NotToml);
    assert_eq!(outcome.exit_code(), 1);
    let outcome = fmt_outcome(false, true, true);
    assert_eq!(outcome, FmtOutcome::Rewrite);
    assert_eq!(outcome.exit_code(), 0);
}

fn args(words: &[&str]) -> Vec<String> {
    words.iter().map(|w| w.to_string()).collect()
}

#[test]
fn the_command_line_is_validate_or_fmt() {
    assert_eq!(command(&args(&["warden"])), Command::Usage);
    assert_eq!(command(&args(&["warden", "frobnicate"])), Command::Usage);
    assert_eq!(
        command(&args(&["warden", "validate"])),
        Command::Validate { path: None }
    );
    assert_eq!(
        command(&args(&["warden", "validate", "a.toml", "b.toml"])),
        Command::Validate {
            path: Some("a.toml".to_string())
        }
    );
    assert_eq!(
        command(&args(&["warden", "fmt", "a.toml", "--check", "b.toml"])),
        Command::Fmt {
            check: true,
            path: Some("b.toml".to_string())
        }
    );
    assert_eq!(
        command(&args(&["warden", "fmt"])),
        Command::Fmt {
            check: false,
            path: None
        }
    );
}

#[test]
fn a_watch_sees_the_file_under_any_path() {
    let w = Watcher::new("/var/etc/config.toml");
    assert_eq!(w.dir(), "/var/etc");
    assert!(w.concerns(&args(&["/private/var/etc/config.toml"])));
    assert!(w.concerns(&args(&["/x/other", "/x/config.toml"])));
    assert!(!w.concerns(&args(&["/var/etc/config.toml.tmp"])));
    assert!(!w.concerns(&args(&[])));
    assert_eq!(Watcher::new("config.toml").dir(), ".");
    assert_eq!(Watcher::new("/config.toml").dir(), "/");
    assert_eq!(Watcher::new("a//b/./config.toml").dir(), "a/b");
}

fn at(visible: bool) -> Option<(String, String, bool)> {
    Some(("w".to_string(), "t".to_string(), visible))
}

#[test]
fn a_bell_badges_and_a_notification_raises_a_banner() {
    assert_eq!(handle(None, SurfaceSignal::Bell), None);
    assert_eq!(handle(at(true), SurfaceSignal::Bell), None);
    let bell = handle(at(false), SurfaceSignal::Bell).unwrap();
    assert_eq!((bell.label.as_str(), bell.tab.as_str()), ("w", "t"));
    assert_eq!(bell.banner, None);
    let note = |title: &str| SurfaceSignal::Notification {
        title: title.to_string(),
        body: "done".to_string(),
    };
    let banner = handle(at(false), note("Build")).unwrap().banner.unwrap();
    assert_eq!((banner.title.as_str(), banner.body.as_str()), ("Build", "done"));
    let banner = handle(at(false), note(" \t")).unwrap().banner.unwrap();
    assert_eq!(banner.title, "warden");
}

#[test]
fn cycling_takes_the_first_two_digits() {
    assert_eq!(
        tab_menu(TabDigitKeys::Jump),
        vec![
            TabMenuItem::Previous,
            TabMenuItem::Next,
            TabMenuItem::Separator,
            TabMenuItem::Split,
            TabMenuItem::CloseTab,
            TabMenuItem::PopOutTab,
            TabMenuItem::Separator,
            TabMenuItem::Jump(1),
            TabMenuItem::Jump(2),
            TabMenuItem::Jump(3),
            TabMenuItem::Jump(4),
            TabMenuItem::Jump(5),
            TabMenuItem::Jump(6),
            TabMenuItem::Jump(7),
            TabMenuItem::Jump(8),
            TabMenuItem::Jump(9),
        ]
    );
    let cycle = tab_menu(TabDigitKeys::Cycle);
    assert_eq!(cycle[2], TabMenuItem::CycleNext);
    assert_eq!(cycle[3], TabMenuItem::CyclePrevious);
    assert_eq!(cycle[9], TabMenuItem::Jump(3));
    assert_eq!(cycle.len(), 16);
    assert_eq!(
        tab_request(TabMenuItem::CycleNext),
        tab_request(TabMenuItem::Next)
    );
    assert_eq!(
        tab_request(TabMenuItem::CyclePrevious),
        Some(TabRequest::Cycle(-1))
    );
    assert_eq!(tab_request(TabMenuItem::Jump(4)), Some(TabRequest::Select(4)));
    assert_eq!(tab_request(TabMenuItem::CloseTab), Some(TabRequest::Unload));
    assert_eq!(tab_request(TabMenuItem::Separator), None);
}

#[test]
fn the_window_menu_starts_with_the_last_closed() {
    let entry = WindowMenuEntry {
        label: "w".to_string(),
        title: "W".to_string(),
        open: true,
        colour: "#000000".to_string(),
    };
    let rows = window_menu(vec![entry], false);
    assert_eq!(rows.len(), 3);
    assert!(matches!(rows[0], WindowMenuItem::ReopenLast { enabled: false }));
    assert!(matches!(rows[1], WindowMenuItem::Separator));
    match &rows[2] {
        WindowMenuItem::Window(e) => assert_eq!(e.title, "W"),
        other => panic!("expected a window, got {other:?}"),
    }
}
