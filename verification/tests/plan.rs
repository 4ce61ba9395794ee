use warden::colour::Colour;
use warden::model::{Config, Density, Root, Tab, TabDigitKeys, Window};
use warden::plan::{
    configured_specs, detach_window_token, detached_label, is_detached_label, next_reopen_target,
    reconcile_ops, sanitize_label, unique_label, window_menu_entries, window_specs, window_to_spec,
    WindowOp, WindowSpec, HOME_LABEL,
};
use warden::raw::{RawConfig, RawGroup, RawRoot, RawTab, RawWindow};
use warden::reconcile::{reconcile, Reconciliation, WindowUpdate};
use warden::resolve::resolve;

/// The text at `key`, if there is one.
fn text(t: &toml::Table, key: &str) -> Option<String> {
    t.get(key).map(|v| v.as_str().unwrap().to_string())
}

fn number(t: &toml::Table, key: &str) -> Option<u32> {
    t.get(key).map(|v| u32::try_from(v.as_integer().unwrap()).unwrap())
}

fn flag(t: &toml::Table, key: &str) -> Option<bool> {
    t.get(key).map(|v| v.as_bool().unwrap())
}

fn tables<'a>(t: &'a toml::Table, key: &str) -> Vec<&'a toml::Table> {
    match t.get(key) {
        Some(v) => v
            .as_array()
            .unwrap()
            .iter()
            .map(|x| x.as_table().unwrap())
            .collect(),
        None => Vec::new(),
    }
}

fn raw_tab(t: &toml::Table) -> RawTab {
    RawTab {
        id: text(t, "id"),
        title: text(t, "title"),
        dir: text(t, "dir").unwrap(),
        shell: text(t, "shell"),
        cmd: text(t, "cmd"),
        probe: text(t, "probe"),
        kill: text(t, "kill"),
        load_on_open: flag(t, "load_on_open").unwrap_or(false),
    }
}

fn raw_window(t: &toml::Table) -> RawWindow {
    RawWindow {
        title: text(t, "title").unwrap(),
        colour: text(t, "colour"),
        width: number(t, "width"),
        height: number(t, "height"),
        open_on_start: flag(t, "open_on_start"),
        shell: text(t, "shell"),
        cmd: text(t, "cmd"),
        probe: text(t, "probe"),
        kill: text(t, "kill"),
        tabs: tables(t, "tab").into_iter().map(raw_tab).collect(),
        groups: tables(t, "group")
            .into_iter()
            .map(|g| RawGroup {
                name: text(g, "name").unwrap(),
                tabs: tables(g, "tab").into_iter().map(raw_tab).collect(),
            })
            .collect(),
        roots: tables(t, "root")
            .into_iter()
            .map(|r| RawRoot {
                name: text(r, "name"),
                dir: text(r, "dir").unwrap(),
                depth: number(r, "depth"),
                shell: text(r, "shell"),
                cmd: text(r, "cmd"),
                probe: text(r, "probe"),
                kill: text(r, "kill"),
            })
            .collect(),
    }
}

/// A configuration as it is written.
fn parse(s: &str) -> Result<RawConfig, toml::de::Error> {
    let t: toml::Table = s.parse()?;
    Ok(RawConfig {
        shell: text(&t, "shell"),
        cmd: text(&t, "cmd"),
        probe: text(&t, "probe"),
        kill: text(&t, "kill"),
        probe_interval: t
            .get("probe_interval")
            .map(|v| v.as_integer().unwrap() as u64),
        format_on_save: flag(&t, "format_on_save"),
        tab_digit_keys: text(&t, "tab_digit_keys"),
        density: text(&t, "density"),
        sidebar_drag: flag(&t, "sidebar_drag"),
        auto_update: flag(&t, "auto_update"),
        notify_debug: flag(&t, "notify_debug"),
        windows: tables(&t, "window").into_iter().map(raw_window).collect(),
    })
}

fn set(items: &[&str]) -> Vec<String> {
    items.iter().map(|s| s.to_string()).collect()
}

fn spec(label: &str, title: &str) -> WindowSpec {
    WindowSpec {
        label: label.to_string(),
        title: title.to_string(),
        colour: "#000000".to_string(),
        width: 800,
        height: 600,
        open_on_start: true,
        tabs: Vec::new(),
    }
}

#[test]
fn window_specs_carry_open_on_start() {
    let cfg = cfg(
            r##"
[[window]]
title = "a"
open_on_start = false
  [[window.tab]]
  dir = "/tmp"

[[window]]
title = "b"
  [[window.tab]]
  dir = "/tmp"
"##,
    );
    let specs = window_specs(&cfg);
    assert_eq!(specs.len(), 2);
    assert!(!specs[0].open_on_start, "explicit false carries through");
    assert!(specs[1].open_on_start, "default true carries through");
}

#[test]
fn menu_entries_preserve_order_and_tag_open_state() {
    let specs = vec![spec("work", "work"), spec("side", "side-project")];
    let open = set(&["work"]);
    let entries = window_menu_entries(&specs, &open);
    assert_eq!(entries.len(), 2);
    assert_eq!(entries[0].label, "work");
    assert_eq!(entries[0].title, "work");
    assert!(entries[0].open);
    assert_eq!(entries[1].label, "side");
    assert!(!entries[1].open);
    assert_eq!(entries[0].colour, "#000000"); // from spec()'s colour
}

#[test]
fn reopen_target_none_when_stack_empty() {
    assert_eq!(next_reopen_target(&vec![], &set(&["work"]), &set(&[])), None);
}

#[test]
fn reopen_target_picks_most_recent_closed_configured() {
    let stack = vec!["work".to_string(), "side".to_string()];
    let configured = set(&["work", "side"]);
    let open = set(&[]);
    assert_eq!(
        next_reopen_target(&stack, &configured, &open),
        Some("side".to_string())
    );
}

#[test]
fn reopen_target_skips_already_open() {
    let stack = vec!["work".to_string(), "side".to_string()];
    let configured = set(&["work", "side"]);
    let open = set(&["side"]);
    assert_eq!(
        next_reopen_target(&stack, &configured, &open),
        Some("work".to_string())
    );
}

#[test]
fn reopen_target_skips_no_longer_configured() {
    let stack = vec!["work".to_string(), "side".to_string()];
    let configured = set(&["work"]);
    let open = set(&[]);
    assert_eq!(
        next_reopen_target(&stack, &configured, &open),
        Some("work".to_string())
    );
}

#[test]
fn reopen_target_none_when_all_open_or_unconfigured() {
    let stack = vec!["work".to_string(), "side".to_string()];
    let configured = set(&["work", "side"]);
    let open = set(&["work", "side"]);
    assert_eq!(next_reopen_target(&stack, &configured, &open), None);
}

fn cfg(toml: &str) -> Config {
    resolve(parse(toml).unwrap()).unwrap().0
}

#[test]
fn sanitizes_spaces_and_unicode() {
    assert_eq!(sanitize_label("work stuff"), "work-stuff");
    assert_eq!(sanitize_label("café ☕"), "caf");
    assert_eq!(sanitize_label("--x--"), "x");
    assert_eq!(sanitize_label("☕☕"), "window");
}

#[test]
fn tokens_of_different_tabs_differ() {
    assert_eq!(detach_window_token("work", "/tmp/alpha"), "work:/tmp/alpha");
    assert_eq!(detach_window_token("work", "a b"), "work:a_32_b");
    assert_eq!(detach_window_token("work", "a-b"), "work:a-b");
    assert_eq!(detach_window_token("work", "a_b"), "work:a_95_b");
    assert_ne!(
        detach_window_token("work", "my app"),
        detach_window_token("work", "my-app")
    );
    assert_ne!(detach_window_token("w:a", "b"), detach_window_token("w", "a:b"));
    assert_ne!(detach_window_token("w", "-"), detach_window_token("w", ""));
}

#[test]
fn detach_window_token_is_label_safe_and_distinct_per_tab() {
    let t1 = detach_window_token("work", "/tmp/alpha");
    let t2 = detach_window_token("work", "/tmp/beta");
    assert_ne!(t1, t2);

    let label = detached_label(&t1);
    assert!(is_detached_label(&label));

    let t3 = detach_window_token("work", "my project ☕");
    assert!(
        t3.chars()
            .all(|c| c.is_ascii_alphanumeric() || matches!(c, '-' | '/' | ':' | '_')),
        "token must be restricted to the Tauri label charset, got {t3:?}"
    );
}

#[test]
fn unique_label_suffixes_on_collision() {
    let taken = vec!["work".to_string(), "work-2".to_string()];
    assert_eq!(unique_label("work", &taken), "work-3");
}

#[test]
fn window_specs_maps_window_and_tabs() {
    let c = cfg(r##"
[[window]]
title = "work"
colour = "#0f8a8a"
  [[window.tab]]
  title = "alpha"
  dir = "/tmp/alpha"
  load_on_open = true
  [[window.tab]]
  title = "ops"
  dir = "/tmp/ops"
"##);
    let specs = window_specs(&c);
    assert_eq!(specs.len(), 1);
    let w = &specs[0];
    assert_eq!(w.label, "work");
    assert_eq!(w.title, "work");
    assert_eq!(w.colour, "#0f8a8a");
    assert_eq!(w.tabs.len(), 2);
    assert_eq!(w.tabs[0].spec.id, "/tmp/alpha");
    assert_eq!(w.tabs[0].spec.title, "alpha");
    assert!(w.tabs[0].load_on_open);
    assert_eq!(w.tabs[1].spec.id, "/tmp/ops");
    assert!(!w.tabs[1].load_on_open);
}

#[test]
fn tree_tabs_get_tree_flag_and_relative_path() {
    let root_dir = "/r/Dev".to_string();
    let win = Window {
        title: "dev".into(),
        colour: Colour { r: 0, g: 0, b: 0 },
        width: 1500,
        height: 1000,
        open_on_start: true,
        tabs: vec![Tab {
            id: None,
            key: "/r/Dev/gh/lockyc/warden".into(),
            title: "warden".into(),
            dir: "/r/Dev/gh/lockyc/warden".into(),
            shell: "sh".into(),
            startup: None,
            load_on_open: false,
            group: Some("Dev".into()),
            probe: None,
            kill: None,
            split: None,
        }],
        roots: vec![Root {
            name: "Dev".into(),
            dir: root_dir,
            depth: 6,
            shell: "sh".into(),
            startup: None,
            probe: None,
            kill: None,
            split: None,
        }],
    };
    let spec = window_to_spec(&win, "dev".into());
    assert_eq!(
        spec.tabs[0].spec.tree_path,
        vec!["gh".to_string(), "lockyc".to_string()]
    );
    assert!(spec.tabs[0].spec.tree);
}


fn name_label_map(c: &Config) -> Vec<(String, String)> {
    window_specs(c)
        .into_iter()
        .map(|w| (w.title, w.label))
        .collect()
}
fn taken(c: &Config) -> Vec<String> {
    window_specs(c).into_iter().map(|w| w.label).collect()
}

#[test]
fn open_window_becomes_open_op() {
    let old = cfg("");
    let new = cfg(r##"
[[window]]
title = "work"
colour = "#0f8a8a"
  [[window.tab]]
  title = "alpha"
  dir = "/tmp/alpha"
"##);
    let r = reconcile(&old, &new);
    let ops = reconcile_ops(&r, &new, &name_label_map(&old), &taken(&old));
    assert_eq!(ops.len(), 1);
    match &ops[0] {
        WindowOp::Open(spec) => assert_eq!(spec.title, "work"),
        other => panic!("expected Open, got {other:?}"),
    }
}

#[test]
fn closed_window_becomes_close_op_with_label() {
    let old = cfg(r##"
[[window]]
title = "work zone"
colour = "#0f8a8a"
  [[window.tab]]
  title = "alpha"
  dir = "/tmp/alpha"
"##);
    let new = cfg("");
    let r = reconcile(&old, &new);
    let ops = reconcile_ops(&r, &new, &name_label_map(&old), &taken(&old));
    assert_eq!(ops, vec![WindowOp::Close("work-zone".to_string())]);
}

#[test]
fn colour_change_becomes_update_op_with_hex() {
    let base = r##"
[[window]]
title = "work"
colour = "{C}"
  [[window.tab]]
  title = "alpha"
  dir = "/tmp/alpha"
"##;
    let old = cfg(&base.replace("{C}", "#0f8a8a"));
    let new = cfg(&base.replace("{C}", "#112233"));
    let r = reconcile(&old, &new);
    let ops = reconcile_ops(&r, &new, &name_label_map(&old), &taken(&old));
    assert_eq!(ops.len(), 1);
    match &ops[0] {
        WindowOp::Update { label, colour, .. } => {
            assert_eq!(label, "work");
            assert_eq!(colour.as_deref(), Some("#112233"));
        }
        other => panic!("expected Update, got {other:?}"),
    }
}

#[test]
fn window_specs_carries_kill_onto_spec() {
    let c = cfg(r##"
[[window]]
title = "work"
colour = "#0f8a8a"
kill = "kill-session"
  [[window.tab]]
  title = "alpha"
  dir = "/tmp/alpha"
  [[window.tab]]
  title = "ops"
  dir = "/tmp/ops"
  kill = ""
"##);
    let specs = window_specs(&c);
    assert_eq!(specs[0].tabs[0].spec.kill.as_deref(), Some("kill-session"));
    assert_eq!(specs[0].tabs[1].spec.kill, None); // opted out
}

#[test]
fn window_specs_carries_probe_onto_spec() {
    let c = cfg(r##"
probe = "check-session"
[[window]]
title = "work"
colour = "#0f8a8a"
  [[window.tab]]
  title = "alpha"
  dir = "/tmp/alpha"
  [[window.tab]]
  title = "ops"
  dir = "/tmp/ops"
  probe = ""
"##);
    let specs = window_specs(&c);
    assert_eq!(
        specs[0].tabs[0].spec.probe.as_deref(),
        Some("check-session")
    );
    assert_eq!(specs[0].tabs[1].spec.probe, None); // opted out
}

#[test]
fn window_specs_dedupes_labels_for_colliding_sanitized_names() {
    let c = cfg(r##"
[[window]]
title = "a b"
colour = "#111111"
  [[window.tab]]
  title = "t1"
  dir = "/tmp/t1"
[[window]]
title = "a-b"
colour = "#222222"
  [[window.tab]]
  title = "t2"
  dir = "/tmp/t2"
"##);
    let specs = window_specs(&c);
    assert_eq!(specs[0].label, "a-b");
    assert_eq!(specs[1].label, "a-b-2");
}

fn map(pairs: &[(&str, &str)]) -> Vec<(String, String)> {
    pairs
        .iter()
        .map(|(t, l)| (t.to_string(), l.to_string()))
        .collect()
}

#[test]
fn configured_specs_pins_open_windows_to_their_live_labels() {
    let c = cfg(r##"
[[window]]
title = "a b"
colour = "#111111"
  [[window.tab]]
  title = "t1"
  dir = "/tmp/t1"
[[window]]
title = "a-b"
colour = "#222222"
  [[window.tab]]
  title = "t2"
  dir = "/tmp/t2"
"##);
    let live_names = map(&[("a b", "a-b-2"), ("a-b", "a-b")]);
    let live_labels = set(&["a-b-2", "a-b"]);
    let specs = configured_specs(&c, &live_names, &live_labels);
    assert_eq!(specs[0].title, "a b");
    assert_eq!(specs[0].label, "a-b-2");
    assert_eq!(specs[1].title, "a-b");
    assert_eq!(specs[1].label, "a-b");
}

#[test]
fn configured_specs_assigns_closed_windows_avoiding_live_labels() {
    let c = cfg(r##"
[[window]]
title = "a b"
colour = "#111111"
  [[window.tab]]
  title = "t1"
  dir = "/tmp/t1"
[[window]]
title = "a-b"
colour = "#222222"
  [[window.tab]]
  title = "t2"
  dir = "/tmp/t2"
"##);
    let live_names = map(&[("a b", "a-b-2")]);
    let live_labels = set(&["a-b-2"]);
    let specs = configured_specs(&c, &live_names, &live_labels);
    assert_eq!(specs[0].label, "a-b-2"); // open → pinned live
    assert_eq!(specs[1].label, "a-b"); // closed → fresh, avoids live "a-b-2"
}

#[test]
fn configured_specs_reserves_home_label_for_closed_windows() {
    let c = cfg(r##"
[[window]]
title = "shell home"
colour = "#111111"
  [[window.tab]]
  title = "t1"
  dir = "/tmp/t1"
"##);
    let specs = configured_specs(&c, &vec![], &vec![]);
    assert_ne!(specs[0].label, HOME_LABEL);
    assert_eq!(specs[0].label, "shell-home-2");
}

#[test]
fn window_specs_reserves_home_label() {
    let c = cfg(r##"
[[window]]
title = "shell home"
colour = "#111111"
  [[window.tab]]
  title = "t1"
  dir = "/tmp/t1"
"##);
    let specs = window_specs(&c);
    assert_ne!(specs[0].label, HOME_LABEL);
    assert_eq!(specs[0].label, "shell-home-2");
}

#[test]
fn reconcile_add_tab_gets_tree_meta_from_new_config_roots() {

    let added = Tab {
        id: None,
        key: "/r/Dev/gh/lockyc/warden".into(),
        title: "warden".into(),
        dir: "/r/Dev/gh/lockyc/warden".into(),
        shell: "sh".into(),
        startup: None,
        load_on_open: false,
        group: Some("Dev".into()),
        probe: None,
        kill: None,
        split: None,
    };
    let recon = Reconciliation {
        open: Vec::new(),
        close: Vec::new(),
        update: vec![WindowUpdate {
            title: "dev".into(),
            colour: None,
            add_tabs: vec![added],
            remove_tabs: Vec::new(),
            tab_order: vec!["/r/Dev/gh/lockyc/warden".into()],
            set_meta: Vec::new(),
            respawn_tabs: Vec::new(),
        }],
    };
    let new_config = Config {
        windows: vec![Window {
            title: "dev".into(),
            colour: Colour { r: 0, g: 0, b: 0 },
            width: 1500,
            height: 1000,
            open_on_start: true,
            tabs: Vec::new(),
            roots: vec![Root {
                name: "Dev".into(),
                dir: "/r/Dev".into(),
                depth: 6,
                shell: "sh".into(),
                startup: None,
                probe: None,
                kill: None,
                split: None,
            }],
        }],
        format_on_save: false,
        tab_digit_keys: TabDigitKeys::default(),
        probe_interval: 5,
        density: Density::default(),
        sidebar_drag: true,
        auto_update: true,
        notify_debug: false,
    };
    let name_to_label: Vec<(String, String)> = [("dev".to_string(), "dev".to_string())]
        .into_iter()
        .collect();
    let taken: Vec<String> = vec![];

    let ops = reconcile_ops(&recon, &new_config, &name_to_label, &taken);
    assert_eq!(ops.len(), 1);
    match &ops[0] {
        WindowOp::Update { add_tabs, .. } => {
            assert_eq!(add_tabs.len(), 1);
            assert!(add_tabs[0].spec.tree, "added tree tab must be flagged tree");
            assert_eq!(
                add_tabs[0].spec.tree_path,
                vec!["gh".to_string(), "lockyc".to_string()]
            );
        }
        other => panic!("expected Update, got {other:?}"),
    }
}

#[test]
fn reconcile_shadow_transition_clears_stale_tree_meta_via_set_meta() {

    let key = "/r/Dev/gh/lockyc/mycelium".to_string();
    let root = Root {
        name: "Developer".into(),
        dir: "/r/Dev".into(),
        depth: 6,
        shell: "sh".into(),
        startup: None,
        probe: None,
        kill: None,
        split: None,
    };
    let mk_window = |tabs: Vec<Tab>| Window {
        title: "w".into(),
        colour: Colour { r: 0, g: 0, b: 0 },
        width: 1500,
        height: 1000,
        open_on_start: true,
        tabs,
        roots: vec![root.clone()],
    };
    let mk_cfg = |tabs: Vec<Tab>| Config {
        windows: vec![mk_window(tabs)],
        format_on_save: false,
        tab_digit_keys: TabDigitKeys::default(),
        probe_interval: 5,
        density: Density::default(),
        sidebar_drag: true,
        auto_update: true,
        notify_debug: false,
    };

    let discovered = Tab {
        id: None,
        key: key.clone(),
        title: "mycelium".into(),
        dir: key.clone(),
        shell: "sh".into(),
        startup: None,
        load_on_open: false,
        group: Some("Developer".into()),
        probe: None,
        kill: None,
        split: None,
    };
    let old = mk_cfg(vec![discovered]);

    let curated = Tab {
        id: None,
        key: key.clone(),
        title: "mycelium".into(),
        dir: key.clone(),
        shell: "sh".into(),
        startup: None,
        load_on_open: false,
        group: Some("tools".into()),
        probe: None,
        kill: None,
        split: None,
    };
    let new = mk_cfg(vec![curated]);

    let recon = reconcile(&old, &new);
    assert_eq!(recon.update.len(), 1, "expected one window update");
    assert!(
        recon.update[0].add_tabs.is_empty() && recon.update[0].remove_tabs.is_empty(),
        "shadow transition must be a kept tab, not add/remove"
    );

    let name_to_label: Vec<(String, String)> =
        [("w".to_string(), "w".to_string())].into_iter().collect();
    let ops = reconcile_ops(&recon, &new, &name_to_label, &vec![]);
    let WindowOp::Update { set_meta, .. } = ops
        .iter()
        .find(|o| matches!(o, WindowOp::Update { .. }))
        .expect("expected an Update op")
    else {
        unreachable!()
    };
    let m = set_meta
        .iter()
        .find(|m| m.id == key)
        .expect("set_meta must carry the shadowed tab");
    assert_eq!(m.meta.group.as_deref(), Some("tools"));
    assert!(
        !m.tree,
        "shadowed project is now a plain group tab — tree must be cleared"
    );
    assert!(
        m.tree_path.is_empty(),
        "cleared tree row must have no tree_path"
    );
}

#[test]
fn respawn_tab_maps_to_tabplan_with_new_dir() {
    let old = cfg(r##"
[[window]]
title = "work"
  [[window.tab]]
  id = "a"
  dir = "/tmp/a"
"##);
    let new = cfg(r##"
[[window]]
title = "work"
  [[window.tab]]
  id = "a"
  dir = "/tmp/a-new"
"##);
    let r = reconcile(&old, &new);
    let ops = reconcile_ops(&r, &new, &name_label_map(&old), &taken(&old));
    assert_eq!(ops.len(), 1);
    match &ops[0] {
        WindowOp::Update { respawn_tabs, .. } => {
            assert_eq!(respawn_tabs.len(), 1);
            assert_eq!(respawn_tabs[0].spec.id, "a");
            assert_eq!(
                respawn_tabs[0].spec.dir,
                "/tmp/a-new"
            );
        }
        other => panic!("expected Update, got {other:?}"),
    }
}
