use warden::birth::{next_birth, start_birth, Birth};
use warden::colour::Colour;
use warden::commands::ActivateResult;
use warden::lifecycle::apply_tab_reconcile;
use warden::manager::{
    initial_rect, is_quitting, mark_quitting, Effect, HomeState, InitDto, WindowManager,
};
use warden::model::{Config, Density, Tab, TabDigitKeys, Window};
use warden::plan::{detached_label, TabPlan};
use warden::presence::{Presence, PresenceCache};
use warden::probe::{install_bump_tx, Bump, BumpQueue};
use warden::reconcile::reconcile;
use warden::registry::{Ask, Outcome, PaneIdx, PixelRect, Registry, SurfaceCmd, TabDto};
use warden::surface::{SurfaceError, TabSpec};

/// A spawner that fails for the shell `broken`, and otherwise makes a surface
/// whose handle tells the tab by its directory, and the pane by its parity.
fn spawn(ask: &Ask) -> Outcome {
    let Ask::Terminal(q) = ask else {
        return Ok(0);
    };
    let spec = &q.spec;
    if spec.shell == "broken" {
        return Err(SurfaceError::SurfaceCreateFailed);
    }
    let base: usize = spec.dir.len() * 10;
    if spec.id.ends_with("::2") {
        Ok(base + 1)
    } else {
        Ok(base)
    }
}

fn tab_spec(id: &str, dir: &str) -> TabSpec {
    TabSpec {
        id: id.into(),
        title: id.into(),
        dir: dir.into(),
        shell: "sh".into(),
        startup: None,
        group: None,
        probe: None,
        kill: None,
        tree: false,
        tree_path: Vec::new(),
        split: None,
    }
}

fn tab(id: &str, dir: &str) -> Tab {
    Tab {
        id: Some(id.to_string()),
        key: id.to_string(),
        title: id.to_string(),
        dir: dir.to_string(),
        shell: "sh".to_string(),
        startup: None,
        load_on_open: false,
        group: None,
        probe: None,
        kill: None,
        split: None,
    }
}

fn window(title: &str, tabs: Vec<Tab>) -> Window {
    Window {
        title: title.to_string(),
        colour: Colour { r: 0, g: 0, b: 0 },
        width: 1500,
        height: 1000,
        open_on_start: true,
        tabs,
        roots: Vec::new(),
    }
}

fn config(windows: Vec<Window>) -> Config {
    Config {
        windows,
        format_on_save: false,
        tab_digit_keys: TabDigitKeys::Jump,
        probe_interval: 5,
        density: Density::Comfortable,
        sidebar_drag: true,
        auto_update: true,
        notify_debug: false,
    }
}

/// Two windows: `work` with the tabs `a` and `b`, `side` with the tab `c`.
fn two_windows() -> Config {
    config(vec![
        window("work", vec![tab("a", "/a"), tab("b", "/bb")]),
        window("side", vec![tab("c", "/ccc")]),
    ])
}

fn started(c: Config) -> WindowManager {
    let mut m = WindowManager::new();
    m.materialize_effective(c.clone(), c, &spawn);
    m
}

fn close(h: usize) -> Effect {
    Effect::Surface(SurfaceCmd::Close(h))
}

fn labels(m: &WindowManager) -> Vec<String> {
    m.taken_labels()
}

fn refreshed(effects: &[Effect]) -> Vec<&InitDto> {
    effects
        .iter()
        .filter_map(|e| match e {
            Effect::Refresh(d) => Some(d),
            _ => None,
        })
        .collect()
}

#[test]
fn probe_interval_defaults_to_5_and_is_settable() {
    let mut m = WindowManager::new();
    assert_eq!(m.probe_interval, 5);
    m.set_probe_interval(0);
    assert_eq!(m.probe_interval, 0);
}

#[test]
fn reconcile_leaves_a_detached_tabs_placeholder_alone() {
    let mut r = Registry::new(0, initial_rect());
    let _ = r.add(&tab_spec("t0", "/tmp/old"), false, &spawn);
    let _ = r.add(&tab_spec("t1", "/tmp/b"), false, &spawn);
    r.ensure_spawned_by_id("t0", &spawn).unwrap();
    r.detach("t0").unwrap();

    let respawn = vec![TabPlan {
        spec: tab_spec("t0", "/tmp/new"),
        load_on_open: false,
    }];
    apply_tab_reconcile(&mut r, &vec!["t1".to_string()], &vec![], &respawn, &spawn);
    assert!(
        r.is_detached("t0"),
        "detached tab's placeholder must survive a respawn op"
    );
    let ids: Vec<_> = r.tab_dtos().into_iter().map(|d| d.id).collect();
    assert_eq!(
        ids,
        vec!["t0".to_string()],
        "t0 kept (detached), t1 removed via the normal path, no duplicate entry"
    );
    assert!(
        !r.is_spawned("t0"),
        "no duplicate surface spawned for the detached tab"
    );

    apply_tab_reconcile(&mut r, &vec!["t0".to_string()], &vec![], &vec![], &spawn);
    assert!(
        r.is_detached("t0"),
        "detached tab's placeholder must survive a remove op (returns on redock)"
    );
    assert_eq!(r.tab_dtos().len(), 1, "still present, not dropped");

    apply_tab_reconcile(
        &mut r,
        &vec![],
        &vec![TabPlan {
            spec: tab_spec("t0", "/tmp/x"),
            load_on_open: false,
        }],
        &vec![],
        &spawn,
    );
    assert!(r.is_detached("t0"));
    assert_eq!(
        r.tab_dtos().len(),
        1,
        "add for a detached key must not create a duplicate entry"
    );
}

fn dto(id: &str) -> TabDto {
    TabDto {
        id: id.to_string(),
        title: id.to_string(),
        warn: false,
        spawned: false,
        group: None,
        has_probe: true,
        has_kill: false,
        has_cmd: false,
        tree: false,
        tree_path: Vec::new(),
        detached: false,
        secondary_spawned: false,
        split: false,
        split_layout: None,
        presence: None,
    }
}

#[test]
fn presence_cache_patches_recorded_tabs_and_survives_relookup() {
    let mut cache = PresenceCache::new();
    cache.record_one("work", "t0", Presence::Present);
    cache.record_one("work", "t1", Presence::Absent);

    let mut tabs = vec![dto("t0"), dto("t1"), dto("t2")];
    cache.patch("work", &mut tabs);
    assert_eq!(
        tabs[0].presence,
        Some(Presence::Present),
        "t0 recorded present"
    );
    assert_eq!(
        tabs[1].presence,
        Some(Presence::Absent),
        "t1 recorded absent"
    );
    assert_eq!(tabs[2].presence, None, "t2 never probed → left unknown");

    let mut other = vec![dto("t0")];
    cache.patch("personal", &mut other);
    assert_eq!(other[0].presence, None, "different window → no cross-talk");
}

#[test]
fn presence_cache_snapshot_returns_recorded_state_for_handshake_replay() {
    let mut cache = PresenceCache::new();
    assert!(
        cache.snapshot("work").ids().is_empty(),
        "no probe yet → empty snapshot (probe_now falls back to the bump)"
    );
    cache.record_one("work", "t0", Presence::Present);
    cache.record_one("work", "t1", Presence::Absent);
    let snapshot = cache.snapshot("work");
    let mut ids = snapshot.ids();
    ids.sort();
    assert_eq!(ids, vec!["t0".to_string(), "t1".to_string()]);
    assert_eq!(snapshot.get("t0"), Some(Presence::Present));
    assert_eq!(snapshot.get("t1"), Some(Presence::Absent));
    assert!(
        cache.snapshot("other").ids().is_empty(),
        "different window → no cross-talk"
    );
}

#[test]
fn presence_cache_snapshot_survives_a_recoverable_result() {
    let mut cache = PresenceCache::new();
    cache.record_one("work", "ghost-tab", Presence::Recoverable);
    assert_eq!(
        cache.snapshot("work").get("ghost-tab"),
        Some(Presence::Recoverable),
        "a recoverable session must replay as recoverable, not collapse to absent or present"
    );
}

#[test]
fn presence_cache_snapshot_sees_a_tab_mid_sweep_not_only_at_pass_end() {
    let mut cache = PresenceCache::new();
    cache.record_one("work", "t0", Presence::Present);
    assert_eq!(
        cache.snapshot("work").get("t0"),
        Some(Presence::Present),
        "an in-flight sweep's finished tab must already be replayable"
    );
}

#[test]
fn presence_cache_record_one_overwrites_with_the_newest_result() {
    let mut cache = PresenceCache::new();
    let mut tabs = vec![dto("t0")];
    cache.patch("work", &mut tabs);
    assert_eq!(tabs[0].presence, None, "never probed → no entry");

    cache.record_one("work", "t0", Presence::Present);
    cache.record_one("work", "t0", Presence::Absent);
    let mut tabs = vec![dto("t0")];
    cache.patch("work", &mut tabs);
    assert_eq!(
        tabs[0].presence,
        Some(Presence::Absent),
        "newest result wins"
    );
}

#[test]
fn presence_cache_round_trips_all_three_states() {
    let mut cache = PresenceCache::new();
    cache.record_one("w1", "t0", Presence::Present);
    cache.record_one("w1", "t1", Presence::Recoverable);
    cache.record_one("w1", "t2", Presence::Absent);

    let mut tabs = vec![dto("t0"), dto("t1"), dto("t2"), dto("t3")];
    cache.patch("w1", &mut tabs);

    assert_eq!(tabs[0].presence, Some(Presence::Present));
    assert_eq!(
        tabs[1].presence,
        Some(Presence::Recoverable),
        "ghost survives the cache"
    );
    assert_eq!(tabs[2].presence, Some(Presence::Absent));
    assert_eq!(
        tabs[3].presence, None,
        "never probed ⇒ unknown, distinct from Absent"
    );
}

#[test]
fn presence_cache_record_one_overwrites_ghost_with_the_newest_result() {
    let mut cache = PresenceCache::new();
    cache.record_one("w1", "t0", Presence::Recoverable);
    cache.record_one("w1", "t0", Presence::Present);

    let mut tabs = vec![dto("t0")];
    cache.patch("w1", &mut tabs);
    assert_eq!(tabs[0].presence, Some(Presence::Present));
}

#[test]
fn a_window_is_built_before_anything_is_spawned_in_it() {
    let asked = std::cell::RefCell::new(Vec::new());
    let watch = |ask: &Ask| {
        let mut asked = asked.borrow_mut();
        match ask {
            Ask::Window {
                label,
                title,
                width,
                height,
            } => {
                asked.push(format!("{label} {title} {width} {height}"));
                Ok(asked.len())
            }
            Ask::Terminal(q) => {
                asked.push(format!("{} in {}", q.spec.dir, q.window));
                spawn(ask)
            }
        }
    };
    let mut m = WindowManager::new();
    m.materialize_effective(two_windows(), two_windows(), &watch);
    let asked = asked.into_inner();
    assert_eq!(asked[0], "work work 1500 1000");
    assert!(asked[1].ends_with(" in 1"), "{asked:?}");
    assert!(asked.contains(&"side side 1500 1000".to_string()));
}

#[test]
fn windows_open_with_all_their_tabs_and_show_the_first() {
    let mut m = started(two_windows());
    assert_eq!(labels(&m), vec!["work".to_string(), "side".to_string()]);
    let effects = m.take_effects();
    assert_eq!(
        effects[0..3],
        [
            Effect::Surface(SurfaceCmd::SetFrame(20, initial_rect())),
            Effect::Surface(SurfaceCmd::Show(20)),
            Effect::Surface(SurfaceCmd::Focus(20)),
        ]
    );
    let d = m.init_dto("work").unwrap();
    assert_eq!(d.tabs.len(), 2);
    assert!(d.tabs[0].spawned && !d.tabs[1].spawned);
    assert_eq!((d.colour.as_str(), d.density.as_str()), ("#000000", "comfortable"));
    assert_eq!(d.error, None);
    assert!(m.init_dto("nope").is_none());
}

#[test]
fn a_window_that_does_not_open_on_start_waits_in_the_menu() {
    let mut c = two_windows();
    c.windows[1].open_on_start = false;
    let m = started(c);
    assert_eq!(labels(&m), vec!["work".to_string()]);
    let rows = m.window_menu_entries();
    assert_eq!(rows.len(), 2);
    assert!(rows[0].open && !rows[1].open);
}

#[test]
fn tabs_that_cannot_open_are_reported_once_and_stay() {
    let mut bad = tab("a", "/a");
    bad.shell = "broken".to_string();
    bad.load_on_open = true;
    let mut worse = tab("b", "/bb");
    worse.shell = "broken".to_string();
    worse.load_on_open = true;
    let m = started(config(vec![window("w", vec![bad, worse])]));
    let d = m.init_dto("w").unwrap();
    assert_eq!(
        d.error.as_deref(),
        Some(
            "couldn't open terminal — a: libghostty surface creation failed; \
             b: libghostty surface creation failed"
        )
    );
    assert_eq!(d.tabs.len(), 2);
}

#[test]
fn a_destroyed_window_is_reopened_first() {
    let mut m = started(two_windows());
    let _ = m.take_effects();
    assert!(!m.has_reopen_target());
    m.window_destroyed("side");
    m.window_destroyed("work");
    m.window_destroyed("side");
    assert_eq!(m.last_closed, vec!["work".to_string(), "side".to_string()]);
    assert_eq!(m.take_effects(), vec![close(40), close(20)]);
    assert!(m.is_empty());
    assert!(m.reopen_last(&spawn));
    assert_eq!(labels(&m), vec!["side".to_string()]);
    assert!(m.reopen_last(&spawn));
    assert!(!m.reopen_last(&spawn), "nothing is left to reopen");
    assert!(!m.reopen_window("work", &spawn), "it is open");
    assert!(!m.reopen_window("nope", &spawn), "it is not configured");
}

#[test]
fn opening_a_window_raises_it_or_reopens_it() {
    let mut m = started(two_windows());
    let _ = m.take_effects();
    m.open_window("work", &spawn);
    assert_eq!(
        m.take_effects(),
        vec![Effect::FocusWindow("work".to_string())]
    );
    m.window_destroyed("work");
    m.open_window("work", &spawn);
    assert!(labels(&m).contains(&"work".to_string()));
}

#[test]
fn the_home_surface_shows_only_while_nothing_else_does() {
    let mut m = WindowManager::new();
    assert_eq!(
        m.home_state(false, "/c.toml"),
        Some(HomeState::NoConfig("/c.toml".to_string()))
    );
    m.load_failed("bad".to_string());
    assert_eq!(
        m.home_state(true, "/c.toml"),
        Some(HomeState::Broken("bad".to_string()))
    );
    assert_eq!(m.take_effects(), vec![], "no window to say it in");
    let mut m = started(two_windows());
    assert_eq!(m.home_state(true, "/c.toml"), None);
    m.window_destroyed("work");
    m.window_destroyed("side");
    match m.home_state(true, "/c.toml") {
        Some(HomeState::Windows(rows)) => assert_eq!(rows.len(), 2),
        other => panic!("expected the windows, got {other:?}"),
    }
}

#[test]
fn an_update_applies_in_place_and_refreshes_the_chrome() {
    let old = two_windows();
    let mut m = started(old.clone());
    let _ = m.take_effects();
    let mut new = config(vec![window(
        "work",
        vec![tab("b", "/bb"), tab("a", "/a"), tab("d", "/dddd")],
    )]);
    new.windows[0].colour = Colour { r: 1, g: 2, b: 3 };
    new.density = Density::Compact;
    let recon = reconcile(&old, &new);
    m.apply(&recon, &new, &spawn);
    let effects = m.take_effects();
    assert_eq!(effects[0], close(40), "the tab of the closed window ends");
    assert_eq!(effects[1], Effect::CloseWindow("side".to_string()));
    let shots = refreshed(&effects);
    assert_eq!(shots.len(), 1);
    let ids: Vec<&str> = shots[0].tabs.iter().map(|t| t.id.as_str()).collect();
    assert_eq!(ids, ["b", "a", "d"]);
    assert_eq!(shots[0].colour, "#010203");
    assert_eq!(shots[0].density, "compact");
    assert_eq!(labels(&m), vec!["work".to_string()]);
}

#[test]
fn an_unchanged_config_leaves_everything_as_it_is() {
    let c = two_windows();
    let mut m = started(c.clone());
    let _ = m.take_effects();
    m.window_destroyed("side");
    let _ = m.take_effects();
    let mut q = BumpQueue::new();
    m.reload(c.clone(), c, &mut q, &spawn);
    assert_eq!(m.take_effects(), vec![Effect::ErrorClear]);
    assert_eq!(
        labels(&m),
        vec!["work".to_string()],
        "what was closed stays closed"
    );
}

#[test]
fn a_respawned_tab_that_was_shown_is_shown_again() {
    let old = two_windows();
    let mut m = started(old.clone());
    let _ = m.take_effects();
    let mut new = old.clone();
    new.windows[0].tabs[0].dir = "/aaaaa".to_string();
    m.apply(&reconcile(&old, &new), &new, &spawn);
    let effects = m.take_effects();
    assert_eq!(effects[0], close(20));
    assert!(effects.contains(&Effect::Surface(SurfaceCmd::Focus(60))));
    assert_eq!(
        m.windows[0].registry.active_tab().as_deref(),
        Some("a")
    );
}

#[test]
fn a_reload_without_a_baseline_respects_open_on_start() {
    let mut m = WindowManager::new();
    let mut q = BumpQueue::new();
    install_bump_tx(&mut q);
    m.load_failed("bad".to_string());
    let mut c = two_windows();
    c.windows[1].open_on_start = false;
    c.probe_interval = 9;
    m.reload(c.clone(), c, &mut q, &spawn);
    assert_eq!(labels(&m), vec!["work".to_string()]);
    assert_eq!(m.load_error, None);
    assert_eq!(m.probe_interval, 9);
    assert_eq!(
        q.drain(),
        vec![Bump {
            label: "work".to_string(),
            tab: None,
            await_present: None
        }]
    );
}

#[test]
fn a_shared_setting_reaches_every_window() {
    let c = two_windows();
    let mut m = started(c.clone());
    let _ = m.take_effects();
    let mut new = c.clone();
    new.sidebar_drag = false;
    let mut q = BumpQueue::new();
    m.reload(new.clone(), new, &mut q, &spawn);
    let effects = m.take_effects();
    let shots = refreshed(&effects);
    assert_eq!(shots.len(), 2);
    assert!(shots.iter().all(|d| !d.sidebar_drag));
}

#[test]
fn a_rescan_adds_what_appeared_on_disk() {
    let mut c = two_windows();
    c.windows[0].roots = vec![warden::model::Root {
        name: "R".to_string(),
        dir: "/r".to_string(),
        depth: 2,
        shell: "sh".to_string(),
        startup: None,
        probe: None,
        kill: None,
        split: None,
    }];
    let mut m = WindowManager::new();
    m.materialize(c, &vec![vec![vec![]], vec![]], &spawn);
    assert_eq!(m.init_dto("work").unwrap().tabs.len(), 2);
    let mut q = BumpQueue::new();
    m.rescan_root(
        &vec![vec![vec!["/r/x/proj".to_string()]], vec![]],
        &mut q,
        &spawn,
    );
    let d = m.init_dto("work").unwrap();
    assert_eq!(d.tabs.len(), 3);
    assert_eq!(d.tabs[2].id, "/r/x/proj");
    assert!(d.tabs[2].tree);
    assert_eq!(d.tabs[2].tree_path, vec!["x".to_string()]);
}

#[test]
fn a_failed_load_is_said_in_the_windows() {
    let mut m = started(two_windows());
    let _ = m.take_effects();
    m.load_failed("bad".to_string());
    assert_eq!(
        m.take_effects(),
        vec![Effect::Error {
            window: None,
            message: "bad".to_string()
        }]
    );
    assert_eq!(m.load_error.as_deref(), Some("bad"));
}

/// Pop tab `a` out of `work`, with both panes, into the window `out`.
fn popped_out() -> WindowManager {
    let mut m = started(two_windows());
    m.split_pane("work", "a", &spawn).unwrap();
    let p = m.pop_out("work", "a", &spawn).unwrap();
    assert_eq!((p.surface, p.secondary), (20, Some(21)));
    assert_eq!(p.token, "work:a");
    m.keep_popped_out(p, "out".to_string());
    let _ = m.take_effects();
    m
}

#[test]
fn a_popped_out_tab_returns_with_its_terminals() {
    let mut m = popped_out();
    assert!(m.init_dto("work").unwrap().tabs[0].detached);
    assert_eq!(
        m.detached_label_for("work", "a").as_deref(),
        Some("out")
    );
    assert_eq!(m.redock("out", &spawn).as_deref(), Some("work"));
    let effects = m.take_effects();
    assert_eq!(
        effects[..2],
        [
            Effect::Reparent {
                surface: 20,
                into: "work".to_string()
            },
            Effect::Reparent {
                surface: 21,
                into: "work".to_string()
            },
        ]
    );
    assert!(!effects.contains(&close(20)) && !effects.contains(&close(21)));
    assert_eq!(
        m.windows[0].registry.locate_surface(21),
        Some(("a".to_string(), PaneIdx::Secondary))
    );
    assert_eq!(m.redock("out", &spawn), None, "it is back already");
}

#[test]
fn a_tab_returns_to_a_window_that_was_closed_meanwhile() {
    let mut m = popped_out();
    m.window_destroyed("work");
    let _ = m.take_effects();
    assert_eq!(m.redock("out", &spawn).as_deref(), Some("work"));
    assert_eq!(
        m.locate_surface(20, Some("work")),
        Some(("work".to_string(), "a".to_string(), true))
    );
}

#[test]
fn a_tab_without_a_window_to_return_to_ends() {
    let mut m = popped_out();
    m.window_destroyed("work");
    let _ = m.take_effects();
    m.last_good.windows.remove(0);
    assert_eq!(m.redock("out", &spawn).as_deref(), Some("work"));
    assert_eq!(m.take_effects(), vec![close(20), close(21)]);
}

#[test]
fn nothing_returns_on_the_way_out() {
    let mut m = popped_out();
    assert!(!is_quitting(&m));
    mark_quitting(&mut m);
    assert!(is_quitting(&m));
    assert_eq!(m.redock("out", &spawn), None);
    assert_eq!(m.take_effects(), vec![]);
    assert_eq!(m.detached.len(), 1);
}

#[test]
fn a_returned_tab_is_looked_at() {
    let mut m = popped_out();
    let mut q = BumpQueue::new();
    install_bump_tx(&mut q);
    m.return_tab("out", &mut q, &spawn);
    let effects = m.take_effects();
    let shots = refreshed(&effects);
    assert_eq!(shots.len(), 1);
    assert!(!shots[0].tabs[0].detached && shots[0].tabs[0].spawned);
    assert_eq!(q.drain().len(), 1);
}

#[test]
fn a_reload_shows_the_new_tabs_and_keeps_what_is_out() {
    let mut m = popped_out();
    let mut new = two_windows();
    new.windows[0].tabs = vec![tab("d", "/dddd"), tab("b", "/bb")];
    new.windows.push(window("more", vec![tab("e", "/eeeee")]));
    let mut q = BumpQueue::new();
    m.reload(new.clone(), new, &mut q, &spawn);
    let shown: Vec<(String, Vec<String>)> = m
        .windows
        .iter()
        .map(|w| (w.title.clone(), w.registry.tab_ids()))
        .collect();
    assert_eq!(
        shown,
        vec![
            (
                "work".to_string(),
                vec!["d".to_string(), "b".to_string(), "a".to_string()]
            ),
            ("side".to_string(), vec!["c".to_string()]),
            ("more".to_string(), vec!["e".to_string()]),
        ],
        "listed tabs in their order, and after them the one that is out"
    );
    assert!(m.windows[0].registry.is_detached("a"));
}

#[test]
fn tabs_with_similar_names_pop_out_side_by_side() {
    let mut m = started(config(vec![window(
        "work",
        vec![tab("a b", "/a"), tab("a-b", "/bb")],
    )]));
    for id in ["a b", "a-b"] {
        let p = m.pop_out("work", id, &spawn).unwrap();
        let label = detached_label(&p.token);
        m.keep_popped_out(p, label);
    }
    let out: Vec<(&str, usize)> = m
        .detached
        .iter()
        .map(|d| (d.tab_id.as_str(), d.surface))
        .collect();
    assert_eq!(out, vec![("a b", 20), ("a-b", 30)]);
    assert_ne!(m.detached[0].label, m.detached[1].label);
}

#[test]
fn a_tab_that_cannot_be_popped_out_says_why() {
    let mut m = started(two_windows());
    assert_eq!(
        m.pop_out("nope", "a", &spawn),
        Err("window not found".to_string())
    );
    assert_eq!(
        m.pop_out("work", "nope", &spawn),
        Err("tab is not available to pop out".to_string())
    );
    let mut c = two_windows();
    c.windows[0].tabs[1].shell = "broken".to_string();
    let mut m = started(c);
    assert_eq!(
        m.pop_out("work", "b", &spawn),
        Err("could not open the tab to pop it out: libghostty surface creation failed".to_string())
    );
}

#[test]
fn a_failed_pop_out_leaves_the_tab_live() {
    let mut m = started(two_windows());
    let p = m.pop_out("work", "a", &spawn).unwrap();
    let _ = m.take_effects();
    assert_eq!(
        m.give_up_pop_out(p, "no window", &spawn),
        "couldn't pop out tab: no window"
    );
    assert_eq!(
        m.windows[0].registry.locate_surface(20),
        Some(("a".to_string(), PaneIdx::Primary))
    );
    assert!(!m.take_effects().contains(&close(20)));
}

#[test]
fn a_docked_second_pane_ends_alone() {
    let mut m = started(two_windows());
    m.split_pane("work", "a", &spawn).unwrap();
    let _ = m.take_effects();
    m.handle_child_exited(21, &spawn);
    assert_eq!(
        m.take_effects(),
        vec![
            close(21),
            Effect::PaneClosed {
                label: "work".to_string(),
                id: "a".to_string()
            }
        ]
    );
    assert!(m.windows[0].registry.is_spawned("a"));
}

#[test]
fn a_docked_first_pane_unloads_its_tab() {
    let mut m = started(two_windows());
    let _ = m.take_effects();
    m.handle_child_exited(20, &spawn);
    assert_eq!(
        m.take_effects(),
        vec![
            close(20),
            Effect::TabExited {
                label: "work".to_string(),
                id: "a".to_string(),
                new_active: None
            }
        ]
    );
    m.handle_child_exited(20, &spawn);
    assert_eq!(m.take_effects(), vec![], "it is gone already");
}

#[test]
fn a_popped_out_second_pane_collapses_its_window() {
    let mut m = popped_out();
    m.handle_child_exited(21, &spawn);
    assert_eq!(
        m.take_effects(),
        vec![
            close(21),
            Effect::OneHole("out".to_string()),
            Effect::PaneClosed {
                label: "work".to_string(),
                id: "a".to_string()
            }
        ]
    );
    m.close_hole("out", 1);
    assert_eq!(m.take_effects(), vec![], "there is one hole left");
    m.close_hole("out", 0);
    assert_eq!(m.take_effects(), vec![]);
}

#[test]
fn a_popped_out_first_pane_ends_the_tab() {
    let mut m = popped_out();
    m.handle_child_exited(20, &spawn);
    let effects = m.take_effects();
    assert_eq!(
        effects[..3],
        [close(20), close(21), Effect::CloseWindow("out".to_string())]
    );
    assert_eq!(
        effects.last(),
        Some(&Effect::TabExited {
            label: "work".to_string(),
            id: "a".to_string(),
            new_active: None
        })
    );
    let shots = refreshed(&effects);
    assert!(!shots[0].tabs[0].detached && !shots[0].tabs[0].spawned);
    assert!(m.detached.is_empty());
}

#[test]
fn the_keyboard_is_followed_in_and_out_of_windows() {
    let mut m = started(two_windows());
    m.split_pane("work", "a", &spawn).unwrap();
    let _ = m.take_effects();
    m.handle_surface_focused(21);
    assert_eq!(
        m.take_effects(),
        vec![Effect::PaneFocused {
            label: "work".to_string(),
            id: "a".to_string(),
            pane: 1
        }]
    );
    let mut m = popped_out();
    m.handle_surface_focused(21);
    assert_eq!(
        m.take_effects(),
        vec![Effect::FocusHole {
            label: "out".to_string(),
            pane: 1
        }]
    );
    m.handle_surface_focused(999);
    assert_eq!(m.take_effects(), vec![]);
}

#[test]
fn holes_report_to_the_window_they_are_in() {
    let rect = PixelRect {
        x: 1,
        y: 2,
        width: 3,
        height: 4,
    };
    let mut m = popped_out();
    m.set_hole_rect("out", None, rect);
    m.set_hole_rect("out", Some(1), rect);
    assert_eq!(
        m.take_effects(),
        vec![
            Effect::Surface(SurfaceCmd::SetFrame(20, rect)),
            Effect::Surface(SurfaceCmd::SetFrame(21, rect)),
        ]
    );
    m.set_hole_rect("side", Some(0), rect);
    assert_eq!(
        m.take_effects(),
        vec![Effect::Surface(SurfaceCmd::SetFrame(40, rect))]
    );
    m.set_hole_rect("nope", None, rect);
    assert_eq!(m.take_effects(), vec![]);
}

#[test]
fn popped_out_windows_are_raised_and_closed_by_their_row() {
    let mut m = popped_out();
    m.raise_popped_window("work", "a");
    m.pop_in_tab("work", "a");
    m.pop_in_tab("work", "b");
    assert_eq!(
        m.take_effects(),
        vec![
            Effect::FocusWindow("out".to_string()),
            Effect::CloseWindow("out".to_string()),
        ]
    );
}

#[test]
fn a_cold_tab_with_a_probe_is_awaited() {
    let mut c = two_windows();
    c.windows[0].tabs[1].probe = Some("p".to_string());
    let mut m = started(c);
    let mut q = BumpQueue::new();
    install_bump_tx(&mut q);
    let r = m.activate_tab("work", "b", &mut q, &spawn);
    assert_eq!(
        r,
        ActivateResult {
            live: true,
            split: false,
            focused: 0
        }
    );
    let _ = m.activate_tab("work", "b", &mut q, &spawn);
    let waits: Vec<Option<bool>> = q.drain().into_iter().map(|b| b.await_present).collect();
    assert_eq!(waits, vec![Some(true), None], "a warm switch awaits nothing");
    assert!(m.activate_tab("nope", "b", &mut q, &spawn).live);
}

#[test]
fn a_spawn_that_fails_on_a_click_is_said_in_that_window() {
    let mut c = two_windows();
    c.windows[0].tabs[1].shell = "broken".to_string();
    let mut m = started(c);
    let _ = m.take_effects();
    let mut q = BumpQueue::new();
    let r = m.activate_tab("work", "b", &mut q, &spawn);
    assert!(!r.live);
    assert!(m.take_effects().contains(&Effect::Error {
        window: Some("work".to_string()),
        message: "couldn't open terminal: libghostty surface creation failed".to_string()
    }));
}

#[test]
fn a_split_tab_refreshes_the_chrome_when_it_is_shown() {
    let mut m = started(two_windows());
    let mut q = BumpQueue::new();
    m.split_pane("work", "a", &spawn).unwrap();
    assert!(m.focus_pane("work", "a", 1));
    let _ = m.take_effects();
    let r = m.activate_tab("work", "a", &mut q, &spawn);
    assert_eq!((r.split, r.focused), (true, 1));
    assert_eq!(refreshed(&m.take_effects()).len(), 1);
    assert!(m.close_pane("work", "a"));
    assert!(!m.close_pane("work", "a"));
    assert!(!m.focus_pane("work", "a", 1));
    assert_eq!(
        m.split_pane("nope", "a", &spawn),
        Err("window not found".to_string())
    );
}

#[test]
fn sessions_are_killed_and_started_by_their_commands() {
    let mut c = two_windows();
    c.windows[0].tabs[0].kill = Some("kill {title} in {dir}".to_string());
    c.windows[0].tabs[0].startup = Some("amux".to_string());
    let mut m = started(c);
    let _ = m.take_effects();
    assert_eq!(
        m.kill_session("work", "a"),
        Some(("kill a in /a".to_string(), "/a".to_string()))
    );
    assert_eq!(m.kill_session("work", "b"), None);
    let mut q = BumpQueue::new();
    install_bump_tx(&mut q);
    assert!(m.start_session("work", "a", &mut q));
    assert_eq!(
        m.take_effects(),
        vec![Effect::Surface(SurfaceCmd::Run(20, "amux".to_string()))]
    );
    assert!(!m.start_session("work", "b", &mut q));
    assert!(!m.start_session("nope", "a", &mut q));
    assert_eq!(q.drain().len(), 1);
}

#[test]
fn unloading_leans_within_the_window() {
    let mut m = started(two_windows());
    let mut q = BumpQueue::new();
    let _ = m.activate_tab("work", "b", &mut q, &spawn);
    assert_eq!(m.unload_tab("work", "b", &spawn).as_deref(), Some("a"));
    assert_eq!(m.unload_tab("nope", "b", &spawn), None);
}

#[test]
fn what_is_known_of_sessions_is_told_again() {
    let mut m = started(two_windows());
    m.presence_cache.record_one("work", "a", Presence::Recoverable);
    let mut q = BumpQueue::new();
    install_bump_tx(&mut q);
    let known = m.probe_now("work", &mut q);
    assert_eq!(known.get("a"), Some(Presence::Recoverable));
    assert_eq!(q.drain().len(), 1);
    assert_eq!(
        m.init_dto("work").unwrap().tabs[0].presence,
        Some(Presence::Recoverable)
    );
}

#[test]
fn probe_targets_are_grouped_by_window() {
    let mut c = two_windows();
    c.windows[0].tabs[1].probe = Some("p".to_string());
    let m = started(c);
    let all = m.probe_targets(None);
    assert_eq!(all.len(), 2);
    assert_eq!(all[0].0, "work");
    assert_eq!(all[0].1.len(), 1);
    assert!(all[1].1.is_empty());
    assert_eq!(m.probe_targets(Some("side")).len(), 1);
}

#[test]
fn a_tab_in_view_is_known_to_be() {
    let m = started(two_windows());
    assert_eq!(
        m.locate_surface(20, Some("work")),
        Some(("work".to_string(), "a".to_string(), true))
    );
    assert_eq!(
        m.locate_surface(20, Some("side")),
        Some(("work".to_string(), "a".to_string(), false))
    );
    assert_eq!(m.locate_surface(7, None), None);
}

#[test]
fn a_birth_moves_both_terminals_or_none() {
    assert_eq!(start_birth(false, false), Birth::MovePrimary);
    assert_eq!(
        start_birth(true, false),
        Birth::Failed(
            "origin window has no NSWindow to roll a split pop-out back into".to_string()
        )
    );
    let b = next_birth(start_birth(true, true), true, None);
    assert_eq!(b, Birth::MoveSecondary);
    assert_eq!(next_birth(Birth::MoveSecondary, true, None), Birth::Born);
    let b = next_birth(b, true, Some("gone".to_string()));
    assert_eq!(
        b,
        Birth::MoveBack("reparent of the second pane failed: gone".to_string())
    );
    assert_eq!(
        next_birth(b, true, None),
        Birth::Failed("reparent of the second pane failed: gone".to_string())
    );
    assert_eq!(
        next_birth(Birth::MovePrimary, false, Some("gone".to_string())),
        Birth::Failed("reparent failed: gone".to_string())
    );
    assert_eq!(next_birth(Birth::MovePrimary, false, None), Birth::Born);
}

#[test]
fn closing_the_home_surface_ends_only_what_is_empty() {
    assert!(WindowManager::new().quits_with_home());
    assert!(!started(two_windows()).quits_with_home());
    let mut m = popped_out();
    m.window_destroyed("work");
    m.window_destroyed("side");
    assert!(!m.quits_with_home(), "a tab is still out");
}
