use warden::colour::Colour;
use warden::model::{Config, Density, Root, Tab, TabDigitKeys, Window};
use warden::scanner::{effective_config, synthesize_tabs, visit, Visit};

fn root(name: &str, shell: &str) -> Root {
    Root {
        name: name.to_string(),
        dir: "/base".to_string(),
        depth: 6,
        shell: shell.to_string(),
        startup: None,
        probe: None,
        kill: None,
        split: None,
    }
}

fn config(tabs: Vec<Tab>, roots: Vec<Root>) -> Config {
    Config {
        windows: vec![Window {
            title: "w".to_string(),
            colour: Colour { r: 0, g: 0, b: 0 },
            width: 1500,
            height: 1000,
            open_on_start: true,
            tabs,
            roots,
        }],
        format_on_save: false,
        tab_digit_keys: TabDigitKeys::default(),
        probe_interval: 5,
        density: Density::default(),
        sidebar_drag: true,
        auto_update: true,
        notify_debug: false,
    }
}

fn paths(words: &[&str]) -> Vec<String> {
    words.iter().map(|w| w.to_string()).collect()
}

#[test]
fn overlapping_roots_dedup_to_one_tab_per_path() {
    let cfg = config(Vec::new(), vec![root("A", "sh"), root("B", "sh")]);
    let found = vec![vec![paths(&["/base/proj"]), paths(&["/base/proj"])]];
    let eff = effective_config(&cfg, &found);
    let tabs = &eff.windows[0].tabs;
    assert_eq!(tabs.len(), 1);
    assert_eq!(tabs[0].key, "/base/proj");
    assert_eq!(tabs[0].group.as_deref(), Some("A"));
}

#[test]
fn curated_tab_shadows_same_dir_discovered_project() {
    let curated = Tab {
        id: None,
        key: "/base/proj".to_string(),
        title: "curated-title".to_string(),
        dir: "/base/proj".to_string(),
        shell: "fish -l".to_string(),
        startup: None,
        load_on_open: false,
        group: None,
        probe: None,
        kill: None,
        split: None,
    };
    let cfg = config(vec![curated], vec![root("Developer", "sh")]);
    let eff = effective_config(&cfg, &vec![vec![paths(&["/base/proj"])]]);
    let tabs = &eff.windows[0].tabs;
    assert_eq!(
        tabs.len(),
        1,
        "curated tab + same-dir discovered project must collapse to one row"
    );
    assert_eq!(
        tabs[0].title, "curated-title",
        "the curated tab shadows the discovered project, not the other way round"
    );
    assert_eq!(
        tabs[0].group, None,
        "shadowing keeps the curated tab's own (loose) grouping, not the root's section"
    );
}

#[test]
fn synthesizes_project_tabs_from_a_root() {
    let mut r = root("Developer", "gsh -l");
    r.startup = Some("run".to_string());
    r.probe = Some("p".to_string());
    let mut tabs = synthesize_tabs(&r, &paths(&["/base/solo", "/base/gh/lockyc/warden"]));
    tabs.sort_by(|a, b| a.key.cmp(&b.key));
    assert_eq!(tabs.len(), 2);
    let warden = tabs.iter().find(|t| t.title == "warden").unwrap();
    assert_eq!(warden.key, "/base/gh/lockyc/warden");
    assert_eq!(warden.group.as_deref(), Some("Developer"));
    assert_eq!(warden.shell, "gsh -l");
    assert_eq!(warden.startup.as_deref(), Some("run"));
    assert_eq!(warden.probe.as_deref(), Some("p"));
    assert!(!warden.load_on_open);
}

#[test]
fn a_search_stops_at_repositories_and_skips_hidden_places() {
    assert_eq!(visit("proj", true, false, true, 0), Visit::Project);
    assert_eq!(visit("dir", true, false, false, 1), Visit::Descend);
    assert_eq!(visit("dir", true, false, false, 0), Visit::Skip);
    assert_eq!(visit(".hidden", true, false, true, 3), Visit::Skip);
    assert_eq!(visit("link", true, true, true, 3), Visit::Skip);
    assert_eq!(visit("file", false, false, false, 3), Visit::Skip);
}
