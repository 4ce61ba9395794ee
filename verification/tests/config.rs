use warden::colour::Colour;
use warden::load::{load, LoadError, Source};
use warden::model::{Config, Density, TabDigitKeys, Warning};
use warden::raw::{RawConfig, RawGroup, RawRoot, RawTab, RawWindow};
use warden::reconcile::{reconcile, TabMeta};
use warden::resolve::{default_colour, resolve, resolve_with, ResolveError, DEFAULT_SHELL};

/// The text at `key`, if there is one.
fn text(t: &toml::Table, key: &str) -> Option<String> {
    t.get(key).map(|v| v.as_str().unwrap().to_string())
}

fn number(t: &toml::Table, key: &str) -> Option<u32> {
    t.get(key).map(|v| u32::try_from(v.as_integer().unwrap()).unwrap())
}

fn flag(t: &toml::Table, key: &str) -> Option<bool> {
    t.get(key).map(|v| v.as_bool().unwrap())
}

fn tables<'a>(t: &'a toml::Table, key: &str) -> Vec<&'a toml::Table> {
    match t.get(key) {
        Some(v) => v
            .as_array()
            .unwrap()
            .iter()
            .map(|x| x.as_table().unwrap())
            .collect(),
        None => Vec::new(),
    }
}

fn raw_tab(t: &toml::Table) -> RawTab {
    RawTab {
        id: text(t, "id"),
        title: text(t, "title"),
        dir: text(t, "dir").unwrap(),
        shell: text(t, "shell"),
        cmd: text(t, "cmd"),
        probe: text(t, "probe"),
        kill: text(t, "kill"),
        load_on_open: flag(t, "load_on_open").unwrap_or(false),
    }
}

fn raw_window(t: &toml::Table) -> RawWindow {
    RawWindow {
        title: text(t, "title").unwrap(),
        colour: text(t, "colour"),
        width: number(t, "width"),
        height: number(t, "height"),
        open_on_start: flag(t, "open_on_start"),
        shell: text(t, "shell"),
        cmd: text(t, "cmd"),
        probe: text(t, "probe"),
        kill: text(t, "kill"),
        tabs: tables(t, "tab").into_iter().map(raw_tab).collect(),
        groups: tables(t, "group")
            .into_iter()
            .map(|g| RawGroup {
                name: text(g, "name").unwrap(),
                tabs: tables(g, "tab").into_iter().map(raw_tab).collect(),
            })
            .collect(),
        roots: tables(t, "root")
            .into_iter()
            .map(|r| RawRoot {
                name: text(r, "name"),
                dir: text(r, "dir").unwrap(),
                depth: number(r, "depth"),
                shell: text(r, "shell"),
                cmd: text(r, "cmd"),
                probe: text(r, "probe"),
                kill: text(r, "kill"),
            })
            .collect(),
    }
}

/// A configuration as it is written.
fn parse(s: &str) -> Result<RawConfig, toml::de::Error> {
    let t: toml::Table = s.parse()?;
    Ok(RawConfig {
        shell: text(&t, "shell"),
        cmd: text(&t, "cmd"),
        probe: text(&t, "probe"),
        kill: text(&t, "kill"),
        probe_interval: t
            .get("probe_interval")
            .map(|v| v.as_integer().unwrap() as u64),
        format_on_save: flag(&t, "format_on_save"),
        tab_digit_keys: text(&t, "tab_digit_keys"),
        density: text(&t, "density"),
        sidebar_drag: flag(&t, "sidebar_drag"),
        auto_update: flag(&t, "auto_update"),
        notify_debug: flag(&t, "notify_debug"),
        windows: tables(&t, "window").into_iter().map(raw_window).collect(),
    })
}


fn resolve_str(s: &str) -> Result<(Config, Vec<Warning>), ResolveError> {
    resolve(parse(s).unwrap())
}

#[test]
fn format_on_save_defaults_false() {
    let (cfg, _) = resolve_str(
        r##"
[[window]]
title = "w"
colour = "#0f8a8a"
"##,
    )
    .unwrap();
    assert!(!cfg.format_on_save);
}

#[test]
fn format_on_save_parses_true() {
    let (cfg, _) = resolve_str(
        r##"
format_on_save = true
[[window]]
title = "w"
colour = "#0f8a8a"
"##,
    )
    .unwrap();
    assert!(cfg.format_on_save);
}

#[test]
fn notify_debug_defaults_false() {
    let (cfg, _) = resolve_str(
        r##"
[[window]]
title = "w"
colour = "#0f8a8a"
"##,
    )
    .unwrap();
    assert!(!cfg.notify_debug);
}

#[test]
fn notify_debug_parses_true() {
    let (cfg, _) = resolve_str(
        r##"
notify_debug = true
[[window]]
title = "w"
colour = "#0f8a8a"
"##,
    )
    .unwrap();
    assert!(cfg.notify_debug);
}

#[test]
fn tab_digit_keys_defaults_to_jump() {
    let (cfg, _) = resolve_str(
        r##"
[[window]]
title = "w"
colour = "#0f8a8a"
"##,
    )
    .unwrap();
    assert_eq!(cfg.tab_digit_keys, TabDigitKeys::Jump);
}

#[test]
fn tab_digit_keys_parses_cycle() {
    let (cfg, _) = resolve_str(
        r##"
tab_digit_keys = "cycle"
[[window]]
title = "w"
colour = "#0f8a8a"
"##,
    )
    .unwrap();
    assert_eq!(cfg.tab_digit_keys, TabDigitKeys::Cycle);
}

#[test]
fn tab_digit_keys_rejects_unknown() {
    let err = resolve_str(
        r##"
tab_digit_keys = "wiggle"
[[window]]
title = "w"
colour = "#0f8a8a"
"##,
    )
    .unwrap_err();
    assert_eq!(err, ResolveError::BadTabDigitKeys("wiggle".to_string()));
}

#[test]
fn density_defaults_to_comfortable() {
    let (cfg, _) = resolve_str(
        r##"
[[window]]
title = "w"
colour = "#0f8a8a"
"##,
    )
    .unwrap();
    assert_eq!(cfg.density, Density::Comfortable);
}

#[test]
fn density_parses_compact() {
    let (cfg, _) = resolve_str(
        r##"
density = "compact"
[[window]]
title = "w"
colour = "#0f8a8a"
"##,
    )
    .unwrap();
    assert_eq!(cfg.density, Density::Compact);
}

#[test]
fn density_rejects_unknown() {
    let err = resolve_str(
        r##"
density = "roomy"
[[window]]
title = "w"
colour = "#0f8a8a"
"##,
    )
    .unwrap_err();
    assert_eq!(err, ResolveError::BadDensity("roomy".to_string()));
}

#[test]
fn sidebar_drag_defaults_to_true() {
    let (cfg, _) = resolve_str(
        r##"
[[window]]
title = "w"
colour = "#0f8a8a"
"##,
    )
    .unwrap();
    assert!(cfg.sidebar_drag);
}

#[test]
fn sidebar_drag_can_be_disabled() {
    let (cfg, _) = resolve_str(
        r##"
sidebar_drag = false
[[window]]
title = "w"
colour = "#0f8a8a"
"##,
    )
    .unwrap();
    assert!(!cfg.sidebar_drag);
}

#[test]
fn auto_update_defaults_to_true() {
    let (cfg, _) = resolve_str(
        r##"
[[window]]
title = "w"
colour = "#0f8a8a"
"##,
    )
    .unwrap();
    assert!(cfg.auto_update);
}

#[test]
fn auto_update_can_be_disabled() {
    let (cfg, _) = resolve_str(
        r##"
auto_update = false
[[window]]
title = "w"
colour = "#0f8a8a"
"##,
    )
    .unwrap();
    assert!(!cfg.auto_update);
}

#[test]
fn title_defaults_to_dir_basename() {
    let (cfg, _) = resolve_str(
        r##"
[[window]]
title = "work"
colour = "#0f8a8a"
  [[window.tab]]
  dir = "/tmp/alpha"
"##,
    )
    .unwrap();
    assert_eq!(cfg.windows[0].tabs[0].title, "alpha");
    assert_eq!(cfg.windows[0].tabs[0].key, "/tmp/alpha");
}

#[test]
fn global_shell_applies_and_cmd_becomes_startup() {
    let (cfg, _) = resolve_str(
        r##"
shell = "zsh"
[[window]]
title = "a"
colour = "#000000"
  [[window.tab]]
  dir = "/tmp/x"
[[window]]
title = "b"
colour = "#000000"
  [[window.tab]]
  dir = "/tmp/y"
  cmd = "tmux"
"##,
    )
    .unwrap();
    assert_eq!(cfg.windows[0].tabs[0].shell, "zsh");
    assert_eq!(cfg.windows[0].tabs[0].startup, None);
    assert_eq!(cfg.windows[1].tabs[0].shell, "zsh");
    assert_eq!(cfg.windows[1].tabs[0].startup.as_deref(), Some("tmux"));

    let (cfg2, _) = resolve_str(
        r##"
[[window]]
title = "a"
colour = "#000000"
  [[window.tab]]
  dir = "/tmp/x"
  cmd = "   "
"##,
    )
    .unwrap();
    assert_eq!(cfg2.windows[0].tabs[0].shell, DEFAULT_SHELL);
    assert_eq!(cfg2.windows[0].tabs[0].startup, None);
}

#[test]
fn shell_and_cmd_cascade_with_nearest_level_winning() {
    let (cfg, _) = resolve_str(
        r##"
shell = "fish"
cmd = "global-cmd"
[[window]]
title = "work"
colour = "#000000"
shell = "zsh"
cmd = "amux"
  [[window.tab]]
  title = "inherits"
  dir = "/tmp/a"
  [[window.tab]]
  title = "overrides"
  dir = "/tmp/b"
  shell = "bash"
  cmd = "vim"
  [[window.tab]]
  title = "opts-out"
  dir = "/tmp/c"
  cmd = ""
[[window]]
title = "plain"
colour = "#000000"
  [[window.tab]]
  title = "from-global"
  dir = "/tmp/d"
"##,
    )
    .unwrap();
    let work = &cfg.windows[0].tabs;
    assert_eq!(work[0].shell, "zsh");
    assert_eq!(work[0].startup.as_deref(), Some("amux"));
    assert_eq!(work[1].shell, "bash");
    assert_eq!(work[1].startup.as_deref(), Some("vim"));
    assert_eq!(work[2].shell, "zsh");
    assert_eq!(work[2].startup, None);
    let plain = &cfg.windows[1].tabs[0];
    assert_eq!(plain.shell, "fish");
    assert_eq!(plain.startup.as_deref(), Some("global-cmd"));
}

#[test]
fn empty_shell_opts_out_to_default_not_inherited() {
    let (cfg, _) = resolve_str(
        r##"
[[window]]
title = "work"
colour = "#000000"
shell = "zsh"
  [[window.tab]]
  title = "opts-out"
  dir = "/tmp/a"
  shell = ""
"##,
    )
    .unwrap();
    assert_eq!(cfg.windows[0].tabs[0].shell, DEFAULT_SHELL);
}

#[test]
fn window_level_empty_opts_out_of_global() {
    let (cfg, _) = resolve_str(
        r##"
shell = "fish"
cmd = "global-cmd"
[[window]]
title = "bare"
colour = "#000000"
shell = ""
cmd = ""
  [[window.tab]]
  dir = "/tmp/a"
"##,
    )
    .unwrap();
    assert_eq!(cfg.windows[0].tabs[0].shell, DEFAULT_SHELL);
    assert_eq!(cfg.windows[0].tabs[0].startup, None);
}

#[test]
fn nonexistent_dir_is_warning_not_error() {
    let (cfg, warns) = resolve_str(
        r##"
[[window]]
title = "work"
colour = "#0f8a8a"
  [[window.tab]]
  dir = "/no/such/path/zzz"
"##,
    )
    .unwrap();
    assert_eq!(cfg.windows[0].tabs.len(), 1);
    assert_eq!(warns.len(), 1);
    assert_eq!(warns[0].window, "work");
    assert!(warns[0].message.contains("does not exist"));
}

#[test]
fn duplicate_window_is_error() {
    let err = resolve_str(
        r##"
[[window]]
title = "dup"
colour = "#000000"
[[window]]
title = "dup"
colour = "#000000"
"##,
    )
    .unwrap_err();
    assert_eq!(err, ResolveError::DuplicateWindow("dup".into()));
}

#[test]
fn duplicate_tab_title_with_different_dirs_is_no_longer_an_error() {
    let (cfg, _w) = resolve_str(
        r##"
[[window]]
title = "work"
colour = "#000000"
  [[window.tab]]
  title = "same"
  dir = "/tmp/a"
  [[window.tab]]
  title = "same"
  dir = "/tmp/b"
"##,
    )
    .unwrap();
    assert_eq!(cfg.windows[0].tabs[0].title, "same");
    assert_eq!(cfg.windows[0].tabs[1].title, "same");
    assert_eq!(cfg.windows[0].tabs[0].key, "/tmp/a");
    assert_eq!(cfg.windows[0].tabs[1].key, "/tmp/b");
}

#[test]
fn same_basename_over_different_dirs_is_no_longer_an_error() {
    let (cfg, _w) = resolve_str(
        r##"
[[window]]
title = "work"
colour = "#000000"
  [[window.tab]]
  dir = "/a/alpha"
  [[window.tab]]
  dir = "/b/alpha"
"##,
    )
    .unwrap();
    assert_eq!(cfg.windows[0].tabs[0].title, "alpha");
    assert_eq!(cfg.windows[0].tabs[1].title, "alpha");
    assert_eq!(cfg.windows[0].tabs[0].key, "/a/alpha");
    assert_eq!(cfg.windows[0].tabs[1].key, "/b/alpha");
}

#[test]
fn empty_dir_is_error() {
    let err = resolve_str(
        r##"
[[window]]
title = "work"
colour = "#000000"
  [[window.tab]]
  dir = "   "
"##,
    )
    .unwrap_err();
    assert_eq!(
        err,
        ResolveError::EmptyDir {
            window: "work".into()
        }
    );
}

#[test]
fn bad_colour_is_error() {
    let err = resolve_str(
        r##"
[[window]]
title = "work"
colour = "teal"
"##,
    )
    .unwrap_err();
    assert!(matches!(err, ResolveError::BadColour { .. }));
}

#[test]
fn root_dir_without_title_gets_nonempty_title() {
    let (cfg, _warns) = resolve_str(
        r##"
[[window]]
title = "work"
colour = "#0f8a8a"
  [[window.tab]]
  dir = "/"
"##,
    )
    .unwrap();
    let tab = &cfg.windows[0].tabs[0];
    assert_eq!(tab.title, "/");
    assert_eq!(tab.key, "/");
    assert!(!tab.title.is_empty());
}

#[test]
fn tilde_in_dir_expands_to_home() {
    let (cfg, _warns) = resolve_str(
        r##"
[[window]]
title = "work"
colour = "#0f8a8a"
  [[window.tab]]
  dir = "~/some/deep/path"
"##,
    )
    .unwrap();
    let home = dirs::home_dir().unwrap();
    let tab = &cfg.windows[0].tabs[0];
    assert_eq!(tab.dir, home.join("some/deep/path").to_string_lossy());
    assert_eq!(tab.title, "path"); // basename of the expanded dir
}

#[test]
fn empty_window_title_is_error() {
    let err = resolve_str(
        r##"
[[window]]
title = "  "
colour = "#000000"
"##,
    )
    .unwrap_err();
    assert!(matches!(err, ResolveError::EmptyWindowTitle { index: 0 }));
}

#[test]
fn empty_explicit_tab_title_is_error() {
    let err = resolve_str(
        r##"
[[window]]
title = "work"
colour = "#000000"
  [[window.tab]]
  title = ""
  dir = "/tmp/a"
"##,
    )
    .unwrap_err();
    assert!(matches!(err, ResolveError::EmptyTabTitle { .. }));
}

#[test]
fn loose_then_grouped_tabs_flatten_in_order_with_group_tags() {
    let (cfg, _) = resolve_str(
        r##"
[[window]]
title = "work"
colour = "#0f8a8a"
  [[window.tab]]
  title = "notes"
  dir = "/tmp/notes"
  [[window.group]]
  name = "frontend"
[[window.group.tab]]
title = "web"
dir = "/tmp/web"
  [[window.group]]
  name = "backend"
[[window.group.tab]]
title = "api"
dir = "/tmp/api"
"##,
    )
    .unwrap();
    let tabs = &cfg.windows[0].tabs;
    let order: Vec<(&str, Option<&str>)> = tabs
        .iter()
        .map(|t| (t.title.as_str(), t.group.as_deref()))
        .collect();
    assert_eq!(
        order,
        vec![
            ("notes", None),
            ("web", Some("frontend")),
            ("api", Some("backend")),
        ]
    );
}

#[test]
fn empty_group_name_is_error() {
    let err = resolve_str(
        r##"
[[window]]
title = "work"
colour = "#000000"
  [[window.group]]
  name = "  "
[[window.group.tab]]
dir = "/tmp/a"
"##,
    )
    .unwrap_err();
    assert!(matches!(err, ResolveError::EmptyGroupName { .. }));
}

#[test]
fn duplicate_group_name_is_error() {
    let err = resolve_str(
        r##"
[[window]]
title = "work"
colour = "#000000"
  [[window.group]]
  name = "dup"
[[window.group.tab]]
title = "a"
dir = "/tmp/a"
  [[window.group]]
  name = "dup"
[[window.group.tab]]
title = "b"
dir = "/tmp/b"
"##,
    )
    .unwrap_err();
    assert_eq!(
        err,
        ResolveError::DuplicateGroup {
            window: "work".into(),
            group: "dup".into()
        }
    );
}

#[test]
fn duplicate_title_across_loose_and_group_is_no_longer_an_error() {
    let (cfg, _w) = resolve_str(
        r##"
[[window]]
title = "work"
colour = "#000000"
  [[window.tab]]
  title = "same"
  dir = "/tmp/a"
  [[window.group]]
  name = "g"
[[window.group.tab]]
title = "same"
dir = "/tmp/b"
"##,
    )
    .unwrap();
    assert_eq!(cfg.windows[0].tabs[0].title, "same");
    assert_eq!(cfg.windows[0].tabs[1].title, "same");
    assert_eq!(cfg.windows[0].tabs[0].key, "/tmp/a");
    assert_eq!(cfg.windows[0].tabs[1].key, "/tmp/b");
}

#[test]
fn loose_tab_has_no_group() {
    let (cfg, _) = resolve_str(
        r##"
[[window]]
title = "work"
colour = "#0f8a8a"
  [[window.tab]]
  dir = "/tmp/alpha"
"##,
    )
    .unwrap();
    assert_eq!(cfg.windows[0].tabs[0].group, None);
}

#[test]
fn probe_cascades_with_nearest_level_winning() {
    let (cfg, _) = resolve_str(
        r##"
probe = "global-probe"
[[window]]
title = "work"
colour = "#000000"
probe = "win-probe"
  [[window.tab]]
  title = "inherits"
  dir = "/tmp/a"
  [[window.tab]]
  title = "overrides"
  dir = "/tmp/b"
  probe = "tab-probe"
  [[window.tab]]
  title = "opts-out"
  dir = "/tmp/c"
  probe = ""
[[window]]
title = "plain"
colour = "#000000"
  [[window.tab]]
  title = "from-global"
  dir = "/tmp/d"
"##,
    )
    .unwrap();
    let work = &cfg.windows[0].tabs;
    assert_eq!(work[0].probe.as_deref(), Some("win-probe")); // inherit window
    assert_eq!(work[1].probe.as_deref(), Some("tab-probe")); // tab wins
    assert_eq!(work[2].probe, None); // `probe = ""` opts out
    assert_eq!(
        cfg.windows[1].tabs[0].probe.as_deref(),
        Some("global-probe")
    );
}

#[test]
fn probe_unset_everywhere_is_none() {
    let (cfg, _) = resolve_str(
        r##"
[[window]]
title = "w"
colour = "#000000"
  [[window.tab]]
  dir = "/tmp/a"
"##,
    )
    .unwrap();
    assert_eq!(cfg.windows[0].tabs[0].probe, None);
}

#[test]
fn probe_interval_defaults_to_5_and_parses() {
    let (def, _) = resolve_str(
        r##"
[[window]]
title = "w"
colour = "#000000"
"##,
    )
    .unwrap();
    assert_eq!(def.probe_interval, 5);

    let (set, _) = resolve_str(
        r##"
probe_interval = 0
[[window]]
title = "w"
colour = "#000000"
"##,
    )
    .unwrap();
    assert_eq!(set.probe_interval, 0);
}

#[test]
fn missing_colour_uses_neutral_default() {
    let cfg = resolve(
        parse(
            r##"
[[window]]
title = "work"
  [[window.tab]]
  dir = "/tmp"
"##,
        )
        .unwrap(),
    )
    .unwrap()
    .0;
    assert_eq!(cfg.windows[0].colour, default_colour());
}

#[test]
fn window_size_defaults_to_1500x1000() {
    let cfg = resolve(
        parse(
            r##"
[[window]]
title = "work"
  [[window.tab]]
  dir = "/tmp"
"##,
        )
        .unwrap(),
    )
    .unwrap()
    .0;
    assert_eq!((cfg.windows[0].width, cfg.windows[0].height), (1500, 1000));
}

#[test]
fn explicit_window_size_is_used() {
    let cfg = resolve(
        parse(
            r##"
[[window]]
title = "work"
width = 1200
height = 800
  [[window.tab]]
  dir = "/tmp"
"##,
        )
        .unwrap(),
    )
    .unwrap()
    .0;
    assert_eq!((cfg.windows[0].width, cfg.windows[0].height), (1200, 800));
}

#[test]
fn zero_window_size_errors() {
    let err = resolve(
        parse(
            r##"
[[window]]
title = "work"
width = 0
height = 800
  [[window.tab]]
  dir = "/tmp"
"##,
        )
        .unwrap(),
    )
    .unwrap_err();
    assert!(matches!(err, ResolveError::InvalidWindowSize { .. }));
}

#[test]
fn zero_window_height_errors() {
    let err = resolve(
        parse(
            r#"
[[window]]
title = "work"
width = 1200
height = 0
  [[window.tab]]
  dir = "/tmp"
"#,
        )
        .unwrap(),
    )
    .unwrap_err();
    assert!(matches!(err, ResolveError::InvalidWindowSize { .. }));
}

#[test]
fn kill_cascades_and_opts_out() {
    let raw = parse(
        r##"
kill = "global-kill {dir}"

[[window]]
title = "w"
colour = "#0f8a8a"
kill = "win-kill"

  [[window.tab]]
  dir = "/tmp/a"
  title = "inherits-window"

  [[window.tab]]
  dir = "/tmp/b"
  title = "own-kill"
  kill = "tab-kill {title}"

  [[window.tab]]
  dir = "/tmp/c"
  title = "opts-out"
  kill = ""

[[window]]
title = "w2"
colour = "#0f8a8a"

  [[window.tab]]
  dir = "/tmp"
  title = "inherits-global"
"##,
    )
    .unwrap();
    let (cfg, _) = resolve(raw).unwrap();
    let tabs = &cfg.windows[0].tabs;
    assert_eq!(tabs[0].kill.as_deref(), Some("win-kill"));
    assert_eq!(tabs[1].kill.as_deref(), Some("tab-kill {title}"));
    assert_eq!(tabs[2].kill, None);
    assert_eq!(
        cfg.windows[1].tabs[0].kill.as_deref(),
        Some("global-kill {dir}")
    );
}

#[test]
fn kill_defaults_to_none_when_unset_everywhere() {
    let raw = parse(
        r##"
[[window]]
title = "w"
colour = "#0f8a8a"

  [[window.tab]]
  dir = "/tmp"
  title = "t"
"##,
    )
    .unwrap();
    let (cfg, _) = resolve(raw).unwrap();
    assert_eq!(cfg.windows[0].tabs[0].kill, None);
}

#[test]
fn root_cascade_resolves_from_window_and_global() {
    let (cfg, _) = resolve_str(
        r##"
shell = "gsh -l"
probe = "global-probe"

[[window]]
title = "dev"
probe = "win-probe"

  [[window.root]]
  dir = "~/Developer"
  cmd = "run"
"##,
    )
    .unwrap();
    let r = &cfg.windows[0].roots[0];
    assert_eq!(r.name, "Developer"); // defaulted from basename
    assert_eq!(r.depth, 6); // default depth
    assert_eq!(r.shell, "gsh -l"); // from global
    assert_eq!(r.startup.as_deref(), Some("run"));
    assert_eq!(r.probe.as_deref(), Some("win-probe")); // window beats global
    assert!(r.kill.is_none());
}

#[test]
fn root_empty_probe_opts_out_of_inherited() {
    let (cfg, _) = resolve_str(
        r##"
probe = "global-probe"
[[window]]
title = "dev"
  [[window.root]]
  dir = "~/x"
  probe = ""
"##,
    )
    .unwrap();
    assert!(cfg.windows[0].roots[0].probe.is_none());
}

#[test]
fn root_name_collides_with_group_name_errors() {
    let err = resolve_str(
        r##"
[[window]]
title = "dev"
  [[window.group]]
  name = "shared"
[[window.group.tab]]
dir = "~/a"
  [[window.root]]
  name = "shared"
  dir = "~/b"
"##,
    )
    .unwrap_err();
    assert_eq!(
        err,
        ResolveError::DuplicateSection {
            window: "dev".into(),
            name: "shared".into()
        }
    );
}

#[test]
fn root_bad_depth_errors() {
    let err = resolve_str(
        r##"
[[window]]
title = "dev"
  [[window.root]]
  dir = "~/x"
  depth = 0
"##,
    )
    .unwrap_err();
    assert_eq!(
        err,
        ResolveError::InvalidRootDepth {
            window: "dev".into(),
            depth: 0
        }
    );
}

#[test]
fn root_empty_dir_errors() {
    let err = resolve_str(
        r##"
[[window]]
title = "dev"
  [[window.root]]
  dir = ""
"##,
    )
    .unwrap_err();
    assert_eq!(
        err,
        ResolveError::EmptyRootDir {
            window: "dev".into()
        }
    );
}

#[test]
fn root_empty_name_errors() {
    let err = resolve_str(
        r##"
[[window]]
title = "dev"
  [[window.root]]
  name = ""
  dir = "~/x"
"##,
    )
    .unwrap_err();
    assert_eq!(
        err,
        ResolveError::EmptyRootName {
            window: "dev".into()
        }
    );
}

#[test]
fn root_missing_dir_warns_not_errors() {
    let (cfg, warnings) = resolve_str(
        r##"
[[window]]
title = "dev"
  [[window.root]]
  dir = "/no/such/warden-root-xyz"
"##,
    )
    .unwrap();
    assert_eq!(cfg.windows[0].roots.len(), 1);
    assert!(warnings
        .iter()
        .any(|w| w.message.contains("root dir does not exist")));
}

#[test]
fn root_vs_root_duplicate_name_errors() {
    let err = resolve_str(
        r##"
[[window]]
title = "dev"
  [[window.root]]
  name = "dup"
  dir = "~/a"
  [[window.root]]
  name = "dup"
  dir = "~/b"
"##,
    )
    .unwrap_err();
    assert_eq!(
        err,
        ResolveError::DuplicateSection {
            window: "dev".into(),
            name: "dup".into()
        }
    );
}

#[test]
fn present_invalid_colour_still_errors() {
    let err = resolve(
        parse(
            r##"
[[window]]
title = "work"
colour = "not-a-colour"
  [[window.tab]]
  dir = "/tmp"
"##,
        )
        .unwrap(),
    )
    .unwrap_err();
    assert!(matches!(err, ResolveError::BadColour { .. }));
}


#[test]
fn window_titles_differing_only_by_whitespace_collide() {
    let err = resolve_str(
        r##"
[[window]]
title = "work"
  [[window.tab]]
  dir = "/tmp"

[[window]]
title = "work "
  [[window.tab]]
  dir = "/tmp"
"##,
    )
    .unwrap_err();
    assert_eq!(err, ResolveError::DuplicateWindow("work".into()));
}

#[test]
fn tabs_sharing_a_dir_without_id_collide_regardless_of_title() {
    let err = resolve_str(
        r##"
[[window]]
title = "work"
  [[window.tab]]
  title = "api"
  dir = "/tmp"
  [[window.tab]]
  title = "api "
  dir = "/tmp"
"##,
    )
    .unwrap_err();
    assert_eq!(
        err,
        ResolveError::DuplicateTabIdentity {
            window: "work".into(),
            identity: "/tmp".into(),
        }
    );
}

#[test]
fn explicit_title_is_stored_trimmed() {
    let (cfg, _) = resolve_str(
        r##"
[[window]]
title = "  work  "
  [[window.tab]]
  title = "  api  "
  dir = "/tmp"
"##,
    )
    .unwrap();
    assert_eq!(cfg.windows[0].title, "work");
    assert_eq!(cfg.windows[0].tabs[0].title, "api");
    assert_eq!(cfg.windows[0].tabs[0].key, "/tmp");
}

#[test]
fn section_names_differing_only_by_whitespace_collide() {
    let err = resolve_str(
        r##"
[[window]]
title = "work"
  [[window.group]]
  name = "backend"
[[window.group.tab]]
dir = "/tmp"
  [[window.group]]
  name = "backend "
[[window.group.tab]]
dir = "/tmp"
"##,
    )
    .unwrap_err();
    assert_eq!(
        err,
        ResolveError::DuplicateGroup {
            window: "work".into(),
            group: "backend".into(),
        }
    );
}

#[test]
fn open_on_start_defaults_to_true() {
    let cfg = resolve(
        parse(
            r##"
[[window]]
title = "work"
  [[window.tab]]
  dir = "/tmp"
"##,
        )
        .unwrap(),
    )
    .unwrap()
    .0;
    assert!(cfg.windows[0].open_on_start);
}

#[test]
fn open_on_start_explicit_false_and_true() {
    let cfg = resolve(
        parse(
            r##"
[[window]]
title = "a"
open_on_start = false
  [[window.tab]]
  dir = "/tmp"

[[window]]
title = "b"
open_on_start = true
  [[window.tab]]
  dir = "/tmp"
"##,
        )
        .unwrap(),
    )
    .unwrap()
    .0;
    assert!(!cfg.windows[0].open_on_start);
    assert!(cfg.windows[1].open_on_start);
}

#[test]
fn identity_is_dir_when_no_id_and_titles_may_repeat() {
    let (cfg, _w) = resolve(
        parse(
            r##"
[[window]]
title = "w"
  [[window.tab]]
  title = "same"
  dir = "/tmp/a"
  [[window.tab]]
  title = "same"
  dir = "/tmp/b"
"##,
        )
        .unwrap(),
    )
    .unwrap();
    let keys: Vec<&str> = cfg.windows[0].tabs.iter().map(|t| t.key.as_str()).collect();
    assert_eq!(keys, vec!["/tmp/a", "/tmp/b"]);
    assert_eq!(cfg.windows[0].tabs[0].id, None);
}

#[test]
fn duplicate_dir_without_id_is_an_error() {
    let err = resolve(
        parse(
            r##"
[[window]]
title = "w"
  [[window.tab]]
  dir = "/tmp/a"
  [[window.tab]]
  dir = "/tmp/a"
"##,
        )
        .unwrap(),
    )
    .unwrap_err();
    assert_eq!(
        err,
        ResolveError::DuplicateTabIdentity {
            window: "w".into(),
            identity: "/tmp/a".into()
        }
    );
}

#[test]
fn explicit_ids_disambiguate_a_shared_dir() {
    let (cfg, _w) = resolve(
        parse(
            r##"
[[window]]
title = "w"
  [[window.tab]]
  id = "server"
  dir = "/tmp/a"
  [[window.tab]]
  id = "shell"
  dir = "/tmp/a"
"##,
        )
        .unwrap(),
    )
    .unwrap();
    let keys: Vec<&str> = cfg.windows[0].tabs.iter().map(|t| t.key.as_str()).collect();
    assert_eq!(keys, vec!["server", "shell"]);
}

#[test]
fn empty_id_falls_back_to_dir() {
    let (cfg, _w) = resolve(
        parse(
            r##"
[[window]]
title = "w"
  [[window.tab]]
  id = ""
  dir = "/tmp/a/"
"##,
        )
        .unwrap(),
    )
    .unwrap();
    assert_eq!(cfg.windows[0].tabs[0].key, "/tmp/a");
    assert_eq!(cfg.windows[0].tabs[0].id, None);
}


const SAMPLE: &str = r##"
shell = "fish -l"
cmd = "amux"

[[window]]
title = "work"
colour = "#0f8a8a"
shell = "zsh"
cmd = "tmux"

  [[window.tab]]
  dir = "~/Developer/alpha"
  cmd = "tmux"
  load_on_open = true

  [[window.tab]]
  title = "ops"
  dir = "~/Developer/api"
"##;

#[test]
fn parses_full_sample() {
    let cfg = parse(SAMPLE).unwrap();
    assert_eq!(cfg.shell.as_deref(), Some("fish -l"));
    assert_eq!(cfg.cmd.as_deref(), Some("amux"));
    assert_eq!(cfg.windows.len(), 1);
    let p = &cfg.windows[0];
    assert_eq!(p.title, "work");
    assert_eq!(p.colour.as_deref(), Some("#0f8a8a"));
    assert_eq!(p.shell.as_deref(), Some("zsh"));
    assert_eq!(p.cmd.as_deref(), Some("tmux"));
    assert_eq!(p.tabs.len(), 2);
    assert_eq!(p.tabs[0].cmd.as_deref(), Some("tmux"));
    assert!(p.tabs[0].load_on_open);
    assert_eq!(p.tabs[1].title.as_deref(), Some("ops"));
    assert!(p.tabs[1].cmd.is_none()); // inherits via cascade
    assert!(!p.tabs[1].load_on_open); // serde default
}

#[test]
fn empty_config_has_no_windows() {
    let cfg = parse("").unwrap();
    assert!(cfg.windows.is_empty());
    assert!(cfg.shell.is_none());
    assert!(cfg.cmd.is_none());
}

#[test]
fn parses_loose_tabs_and_groups_in_order() {
    let cfg = parse(
        r##"
[[window]]
title = "work"
colour = "#0f8a8a"

  [[window.tab]]
  dir = "~/notes"

  [[window.group]]
  name = "frontend"
[[window.group.tab]]
dir = "~/dev/web"
[[window.group.tab]]
dir = "~/dev/design"

  [[window.group]]
  name = "backend"
[[window.group.tab]]
dir = "~/dev/api"
"##,
    )
    .unwrap();
    let w = &cfg.windows[0];
    assert_eq!(w.tabs.len(), 1);
    assert_eq!(w.tabs[0].dir, "~/notes");
    assert_eq!(w.groups.len(), 2);
    assert_eq!(w.groups[0].name, "frontend");
    assert_eq!(w.groups[0].tabs.len(), 2);
    assert_eq!(w.groups[1].name, "backend");
    assert_eq!(w.groups[1].tabs[0].dir, "~/dev/api");
}


/// A resolved configuration whose tabs are known by their titles, so that a tab
/// keeps its identity where its directory changes.
fn cfg(s: &str) -> Config {
    let mut c = resolve(parse(s).unwrap()).unwrap().0;
    for w in &mut c.windows {
        for t in &mut w.tabs {
            t.key = t.title.clone();
        }
    }
    c
}

const BASE: &str = r##"
[[window]]
title = "work"
colour = "#0f8a8a"
  [[window.tab]]
  title = "alpha"
  dir = "/tmp/alpha"
"##;

#[test]
fn added_window_goes_to_open() {
    let old = cfg("");
    let new = cfg(BASE);
    let r = reconcile(&old, &new);
    assert_eq!(r.open.len(), 1);
    assert_eq!(r.open[0].title, "work");
    assert!(r.close.is_empty() && r.update.is_empty());
}

#[test]
fn removed_window_goes_to_close() {
    let r = reconcile(&cfg(BASE), &cfg(""));
    assert_eq!(r.close, vec!["work".to_string()]);
    assert!(r.open.is_empty() && r.update.is_empty());
}

#[test]
fn identical_config_is_noop() {
    let r = reconcile(&cfg(BASE), &cfg(BASE));
    assert!(r.open.is_empty() && r.close.is_empty() && r.update.is_empty());
}

#[test]
fn colour_change_emits_update_with_colour() {
    let new = cfg(&BASE.replace("#0f8a8a", "#112233"));
    let r = reconcile(&cfg(BASE), &new);
    assert_eq!(r.update.len(), 1);
    assert_eq!(
        r.update[0].colour,
        Some(Colour {
            r: 0x11,
            g: 0x22,
            b: 0x33
        })
    );
    assert!(r.update[0].add_tabs.is_empty() && r.update[0].remove_tabs.is_empty());
}

#[test]
fn added_and_removed_tabs_within_kept_window() {
    let new = cfg(r##"
[[window]]
title = "work"
colour = "#0f8a8a"
  [[window.tab]]
  title = "ops"
  dir = "/tmp/ops"
"##);
    let r = reconcile(&cfg(BASE), &new);
    assert_eq!(r.update.len(), 1);
    let u = &r.update[0];
    assert_eq!(
        u.add_tabs
            .iter()
            .map(|t| t.key.as_str())
            .collect::<Vec<_>>(),
        vec!["ops"]
    );
    assert_eq!(u.remove_tabs, vec!["alpha".to_string()]);
    assert_eq!(u.colour, None);
}

#[test]
fn reorder_only_emits_update_with_new_order() {
    let old = cfg(r##"
[[window]]
title = "work"
colour = "#0f8a8a"
  [[window.tab]]
  title = "alpha"
  dir = "/tmp/alpha"
  [[window.tab]]
  title = "beta"
  dir = "/tmp/beta"
"##);
    let new = cfg(r##"
[[window]]
title = "work"
colour = "#0f8a8a"
  [[window.tab]]
  title = "beta"
  dir = "/tmp/beta"
  [[window.tab]]
  title = "alpha"
  dir = "/tmp/alpha"
"##);
    let r = reconcile(&old, &new);
    assert_eq!(
        r.update.len(),
        1,
        "expected exactly one WindowUpdate for a tab reorder"
    );
    let u = &r.update[0];
    assert_eq!(u.tab_order, vec!["beta".to_string(), "alpha".to_string()]);
    assert!(u.add_tabs.is_empty(), "no tabs added");
    assert!(u.remove_tabs.is_empty(), "no tabs removed");
    assert_eq!(u.colour, None, "no colour change");
}

#[test]
fn window_rename_is_destructive_close_plus_open() {
    let new = cfg(&BASE.replace(r#"title = "work""#, r#"title = "play""#));
    let r = reconcile(&cfg(BASE), &new);
    assert_eq!(r.close, vec!["work".to_string()]);
    assert_eq!(r.open.len(), 1);
    assert_eq!(r.open[0].title, "play");
    assert!(r.update.is_empty(), "a rename is never an in-place update");
}

/// Regression test locking the documented limitation: a kept tab whose
/// `title` (and therefore `key`) is unchanged but whose `dir` differs is
/// invisible to the reconciler. No update is emitted; the consumer must
/// close and reopen the tab to pick up such field-level edits.
#[test]
fn in_place_tab_field_edit_is_not_detected() {
    let old = cfg(r##"
[[window]]
title = "work"
colour = "#0f8a8a"
  [[window.tab]]
  title = "alpha"
  dir = "/tmp/alpha"
"##);
    let new = cfg(r##"
[[window]]
title = "work"
colour = "#0f8a8a"
  [[window.tab]]
  title = "alpha"
  dir = "/tmp/alpha-new"
"##);
    let r = reconcile(&old, &new);
    assert!(
        r.update.is_empty(),
        "in-place tab field edits (dir change with same title) must not emit an update"
    );
}

#[test]
fn pure_group_rename_emits_update_with_set_meta_only() {
    let old = cfg(r##"
[[window]]
title = "work"
colour = "#0f8a8a"
  [[window.group]]
  name = "old-name"
[[window.group.tab]]
title = "api"
dir = "/tmp/api"
"##);
    let new = cfg(r##"
[[window]]
title = "work"
colour = "#0f8a8a"
  [[window.group]]
  name = "new-name"
[[window.group.tab]]
title = "api"
dir = "/tmp/api"
"##);
    let r = reconcile(&old, &new);
    assert_eq!(r.update.len(), 1, "a pure group rename must emit an update");
    let u = &r.update[0];
    assert_eq!(
        u.set_meta,
        vec![(
            "api".to_string(),
            TabMeta {
                title: "api".to_string(),
                group: Some("new-name".to_string()),
                probe: None,
                kill: None,
                split: None,
            }
        )]
    );
    assert!(u.add_tabs.is_empty() && u.remove_tabs.is_empty());
    assert_eq!(u.colour, None);
}

#[test]
fn moving_loose_tab_into_group_sets_its_meta() {
    let old = cfg(r##"
[[window]]
title = "work"
colour = "#0f8a8a"
  [[window.tab]]
  title = "api"
  dir = "/tmp/api"
"##);
    let new = cfg(r##"
[[window]]
title = "work"
colour = "#0f8a8a"
  [[window.group]]
  name = "backend"
[[window.group.tab]]
title = "api"
dir = "/tmp/api"
"##);
    let r = reconcile(&old, &new);
    assert_eq!(r.update.len(), 1);
    assert_eq!(
        r.update[0].set_meta,
        vec![(
            "api".to_string(),
            TabMeta {
                title: "api".to_string(),
                group: Some("backend".to_string()),
                probe: None,
                kill: None,
                split: None,
            }
        )]
    );
}

#[test]
fn probe_change_on_kept_tab_emits_set_meta() {
    let old = cfg(r##"
[[window]]
title = "work"
colour = "#0f8a8a"
  [[window.tab]]
  title = "api"
  dir = "/tmp/api"
  probe = "probe-old"
"##);
    let new = cfg(r##"
[[window]]
title = "work"
colour = "#0f8a8a"
  [[window.tab]]
  title = "api"
  dir = "/tmp/api"
  probe = "probe-new"
"##);
    let r = reconcile(&old, &new);
    assert_eq!(r.update.len(), 1, "a probe change on a kept tab must emit an update");
    assert_eq!(
        r.update[0].set_meta,
        vec![(
            "api".to_string(),
            TabMeta {
                title: "api".to_string(),
                group: None,
                probe: Some("probe-new".to_string()),
                kill: None,
                split: None,
            }
        )]
    );
    assert!(r.update[0].add_tabs.is_empty() && r.update[0].remove_tabs.is_empty());
}

#[test]
fn kill_change_on_kept_tab_emits_set_meta() {
    let old = cfg(r##"
[[window]]
title = "work"
colour = "#0f8a8a"
  [[window.tab]]
  title = "api"
  dir = "/tmp/api"
  kill = "kill-old"
"##);
    let new = cfg(r##"
[[window]]
title = "work"
colour = "#0f8a8a"
  [[window.tab]]
  title = "api"
  dir = "/tmp/api"
  kill = "kill-new"
"##);
    let r = reconcile(&old, &new);
    assert_eq!(r.update.len(), 1, "a kill change on a kept tab must emit an update");
    assert_eq!(
        r.update[0].set_meta,
        vec![(
            "api".to_string(),
            TabMeta {
                title: "api".to_string(),
                group: None,
                probe: None,
                kill: Some("kill-new".to_string()),
                split: None,
            }
        )]
    );
    assert!(r.update[0].add_tabs.is_empty() && r.update[0].remove_tabs.is_empty());
}

#[test]
fn unchanged_groups_emit_no_update() {
    let same = r##"
[[window]]
title = "work"
colour = "#0f8a8a"
  [[window.group]]
  name = "g"
[[window.group.tab]]
title = "api"
dir = "/tmp/api"
"##;
    let r = reconcile(&cfg(same), &cfg(same));
    assert!(r.update.is_empty(), "identical grouped config is a no-op");
}

#[test]
fn missing_file_is_read_error() {
    let err = load(Source::Unreadable("no such file".to_string())).unwrap_err();
    assert!(matches!(err, LoadError::Read(_)));
}

#[test]
fn invalid_toml_is_parse_error() {
    let e = parse("this = = bad").unwrap_err();
    let err = load(Source::Unparsable(e.to_string())).unwrap_err();
    assert!(matches!(err, LoadError::Parse(_)));
}

#[test]
fn invalid_colour_is_resolve_error() {
    let raw = parse("[[window]]\ntitle=\"x\"\ncolour=\"nope\"\n").unwrap();
    let err = load(Source::Written(raw)).unwrap_err();
    assert!(matches!(err, LoadError::Resolve(_)));
}

#[test]
fn loads_valid_file() {
    let raw = parse(
        r##"
[[window]]
title = "work"
colour = "#0f8a8a"
  [[window.tab]]
  dir = "/tmp/alpha"
"##,
    )
    .unwrap();
    let loaded = load(Source::Written(raw)).unwrap();
    assert_eq!(loaded.config.windows[0].title, "work");
}

#[test]
fn root_reexports_resolve() {
    let black: warden::Colour = Colour { r: 0, g: 0, b: 0 };
    assert_eq!(black.hex(), "#000000");
    let refused: Result<(), warden::ResolveError> = Err(ResolveError::EmptyWindowTitle { index: 0 });
    assert!(refused.is_err());
    let watcher: warden::Watcher = warden::Watcher::new("/c/warden.toml");
    assert_eq!(watcher.dir(), "/c");
}

#[test]
fn the_fallback_shell_decides_shells_alone() {
    let text = r##"
[[window]]
title = "w"
  [[window.tab]]
  dir = "/nowhere/a"
  [[window.tab]]
  dir = "/nowhere/b"
  shell = "fish"
  [[window.root]]
  dir = "/nowhere"
"##;
    let (a, warned) = resolve_with(parse(text).unwrap(), "zsh").unwrap();
    let (mut b, warned_too) = resolve_with(parse(text).unwrap(), "bash").unwrap();
    assert_eq!(warned, warned_too);
    assert_eq!(a.windows[0].tabs[0].shell, "zsh");
    assert_eq!(b.windows[0].tabs[0].shell, "bash");
    assert_eq!(b.windows[0].tabs[1].shell, "fish");
    assert_eq!(b.windows[0].roots[0].shell, "bash");
    b.windows[0].tabs[0].shell = "zsh".to_string();
    b.windows[0].roots[0].shell = "zsh".to_string();
    assert_eq!(format!("{a:?}"), format!("{b:?}"));
}

#[test]
fn going_back_mirrors_going_there() {
    let a = cfg(BASE);
    let b = cfg(&BASE
        .replace("alpha", "beta")
        .replace("#0f8a8a", "#112233")
        .replacen("\n[[window]]", "\n[[window]]\ntitle = \"new\"\n[[window]]", 1));
    let there = reconcile(&a, &b);
    let back = reconcile(&b, &a);
    assert!(there.close.is_empty() && back.open.is_empty());
    assert_eq!(there.open[0].title, "new");
    assert_eq!(back.close, vec!["new".to_string()]);
    assert_eq!(there.update[0].remove_tabs, vec!["alpha".to_string()]);
    assert_eq!(back.update[0].add_tabs[0].key, "alpha");
    assert_eq!(back.update[0].remove_tabs, vec!["beta".to_string()]);
    assert_eq!(there.update[0].add_tabs[0].key, "beta");
}

#[test]
fn a_tab_that_gains_or_loses_its_id_is_spawned_anew() {
    let with = |tab: &str| {
        let text = format!("[[window]]\ntitle = \"w\"\n[[window.tab]]\n{tab}");
        resolve(parse(&text).unwrap()).unwrap().0
    };
    let known = with("id = \"/tmp/a\"\ndir = \"/tmp/b\"\n");
    let plain = with("dir = \"/tmp/a\"\n");
    for (old, new) in [(&known, &plain), (&plain, &known)] {
        let r = reconcile(old, new);
        assert_eq!(r.update[0].respawn_tabs.len(), 1);
        assert_eq!(r.update[0].respawn_tabs[0].dir, new.windows[0].tabs[0].dir);
        assert!(r.update[0].add_tabs.is_empty() && r.update[0].remove_tabs.is_empty());
    }
    let other = with("dir = \"/tmp/a\"\nshell = \"fish\"\n");
    assert!(reconcile(&plain, &other).update.is_empty());
}
