use std::ops::{Deref, DerefMut};
use warden::model::{Split, SplitSide};
use warden::reconcile::TabMeta;
use warden::registry::{
    pick_live_neighbour, secondary_spec, Ask, Outcome, PaneIdx, PixelRect, Registry, SurfaceCmd,
};
use warden::surface::{SurfaceError, TabSpec};

/// A spawner without a window to spawn in.
fn refuse(_ask: &Ask) -> Outcome {
    Err(SurfaceError::SurfaceCreateFailed)
}

/// A spawner that makes a surface of every first pane, and of every second one
/// with the next handle.
fn grant(ask: &Ask) -> Outcome {
    let Ask::Terminal(q) = ask else {
        return Ok(7);
    };
    let spec = &q.spec;
    let base: usize = spec.dir.len() * 100;
    if spec.id.ends_with("::2") {
        Ok(base + 1)
    } else {
        Ok(base)
    }
}

/// A registry whose spawns all fail, as they do without a window.
struct Reg(Registry);

impl Deref for Reg {
    type Target = Registry;

    fn deref(&self) -> &Registry {
        &self.0
    }
}

impl DerefMut for Reg {
    fn deref_mut(&mut self) -> &mut Registry {
        &mut self.0
    }
}

impl Reg {
    fn new() -> Reg {
        Reg(Registry::new(7, rect()))
    }

    fn add(&mut self, spec: &TabSpec, load_on_open: bool) -> Result<(), SurfaceError> {
        self.0.add(spec, load_on_open, &refuse)
    }

    fn activate(&mut self, id: &str) -> Result<bool, SurfaceError> {
        self.0.activate(id, &refuse)
    }

    fn unload(&mut self, id: &str) -> Option<String> {
        self.0.unload(id, &refuse)
    }

    fn clear_detached(&mut self, id: &str) -> Option<String> {
        self.0.clear_detached(id, &refuse)
    }

    fn ensure_spawned_by_id(&mut self, id: &str) -> Result<(), SurfaceError> {
        self.0.ensure_spawned_by_id(id, &refuse)
    }

    /// Pop the first pane out: it gets a surface, which then leaves.
    fn force_detached(&mut self, id: &str) {
        self.0.attach(id, 1, None).unwrap();
        self.0.detach(id).unwrap();
    }

    /// Pop one pane out; for the second one, both come back and leave again.
    fn force_detached_pane(&mut self, id: &str, which: PaneIdx) {
        match which {
            PaneIdx::Primary => self.force_detached(id),
            PaneIdx::Secondary => {
                self.0.attach(id, 1, Some(2)).unwrap();
                self.0.detach(id).unwrap();
            }
        }
    }
}


fn rect() -> PixelRect {
    PixelRect {
        x: 0.0f64.to_bits(),
        y: 0.0f64.to_bits(),
        width: 100.0f64.to_bits(),
        height: 100.0f64.to_bits(),
    }
}
fn spec(id: &str, dir: &str) -> TabSpec {
    TabSpec {
        id: id.into(),
        title: id.into(),
        dir: dir.into(),
        shell: "fish".into(),
        startup: None,
        group: None,
        probe: None,
        kill: None,
        tree: false,
        tree_path: Vec::new(),
        split: None,
    }
}
fn spec_with_probe(id: &str, dir: &str, probe: Option<&str>) -> TabSpec {
    TabSpec {
        id: id.to_string(),
        title: id.to_string(),
        dir: dir.into(),
        shell: "sh".to_string(),
        startup: None,
        group: None,
        probe: probe.map(String::from),
        kill: None,
        tree: false,
        tree_path: Vec::new(),
        split: None,
    }
}

#[test]
fn a_new_tab_is_unsplit() {
    let mut r = Reg::new();
    r.add(&spec("a", "/tmp/a"), false).unwrap();
    assert!(!r.is_split("a"));
}

#[test]
fn is_split_of_unknown_tab_is_false() {
    let r = Reg::new();
    assert!(!r.is_split("nope"));
}

#[test]
fn declared_tab_is_not_spawned() {
    let mut r = Reg::new();
    let _ = r.add(&spec("t0", "/tmp"), false);
    assert!(!r.is_spawned("t0"));
    let dtos = r.tab_dtos();
    assert_eq!(dtos.len(), 1);
    assert_eq!(dtos[0].id, "t0");
    assert!(!dtos[0].spawned, "declared tab must report spawned = false");
}

#[test]
fn warn_tracks_the_dir_live_in_both_directions() {
    let tmp = tempfile::tempdir().unwrap();
    let dir = tmp.path().join("repo");
    let mut r = Reg::new();
    let _ = r.add(&spec("t0", dir.to_str().unwrap()), false);
    assert!(r.tab_dtos()[0].warn, "absent at add time → warn");

    let made = tempfile::Builder::new()
        .prefix("repo")
        .rand_bytes(0)
        .tempdir_in(tmp.path())
        .unwrap();
    assert!(
        !r.tab_dtos()[0].warn,
        "dir appeared after add → warn must clear without re-adding the tab"
    );

    made.close().unwrap();
    assert!(
        r.tab_dtos()[0].warn,
        "dir removed after add → warn must return"
    );
}

#[test]
fn missing_dir_sets_warn_flag() {
    let mut r = Reg::new();
    let _ = r.add(&spec("t0", "/no/such/dir/xyz"), false);
    assert!(r.tab_dtos()[0].warn, "missing dir must set warn");
}


#[test]
fn remove_drops_declared_entry() {
    let mut r = Reg::new();
    let _ = r.add(&spec("t0", "/tmp"), false);
    let _ = r.add(&spec("t1", "/tmp"), false);
    r.remove("t0");
    let ids: Vec<_> = r.tab_dtos().into_iter().map(|d| d.id).collect();
    assert_eq!(ids, vec!["t1".to_string()]);
}

#[test]
fn reorder_reorders_declared_entries() {
    let mut r = Reg::new();
    let _ = r.add(&spec("a", "/tmp"), false);
    let _ = r.add(&spec("b", "/tmp"), false);
    r.reorder(&vec!["b".to_string(), "a".to_string()]);
    let ids: Vec<_> = r.tab_dtos().into_iter().map(|d| d.id).collect();
    assert_eq!(ids, vec!["b".to_string(), "a".to_string()]);
}

#[test]
fn set_meta_updates_spec_without_touching_surface() {
    let mut r = Reg::new();
    let _ = r.add(&spec("t0", "/tmp"), false);
    assert_eq!(r.tab_dtos()[0].group, None);
    assert!(!r.tab_dtos()[0].has_probe && !r.tab_dtos()[0].has_kill);
    r.set_meta(
        "t0",
        &TabMeta {
            title: "Renamed".to_string(),
            group: Some("backend".into()),
            probe: Some("probe-x".into()),
            kill: Some("kill-y".into()),
            split: None,
        },
        true,
        vec!["gh".into(), "lockyc".into()],
    );
    let d = &r.tab_dtos()[0];
    assert_eq!(d.title, "Renamed", "title relabeled in place");
    assert_eq!(d.group.as_deref(), Some("backend"));
    assert!(d.has_probe, "probe applied in place");
    assert!(d.has_kill, "kill applied in place");
    assert!(d.tree, "tree-ness applied in place");
    assert_eq!(d.tree_path, vec!["gh".to_string(), "lockyc".to_string()]);
    assert!(!r.is_spawned("t0"));
    r.set_meta(
        "nope",
        &TabMeta {
            title: "x".to_string(),
            group: None,
            probe: None,
            kill: None,
            split: None,
        },
        false,
        Vec::new(),
    );
}

#[test]
fn unload_of_cold_tab_is_noop() {
    let mut r = Reg::new();
    let _ = r.add(&spec("t0", "/tmp"), false);
    assert_eq!(r.unload("t0"), None);
    assert!(!r.is_spawned("t0"));
    assert_eq!(r.tab_dtos().len(), 1);
}

#[test]
fn unload_of_unknown_tab_is_noop() {
    let mut r = Reg::new();
    let _ = r.add(&spec("t0", "/tmp"), false);
    assert_eq!(r.unload("nope"), None);
    assert_eq!(r.tab_dtos().len(), 1);
}


#[test]
fn detach_of_cold_tab_returns_none_and_stays_cold() {
    let mut r = Reg::new();
    let _ = r.add(&spec("t0", "/tmp"), false);
    assert!(r.detach("t0").is_none());
    assert!(!r.is_spawned("t0"));
    assert!(!r.is_detached("t0"), "a cold tab must not become Detached");
    assert!(!r.tab_dtos()[0].detached);
}

#[test]
fn detach_of_unknown_tab_returns_none() {
    let mut r = Reg::new();
    let _ = r.add(&spec("t0", "/tmp"), false);
    assert!(r.detach("nope").is_none());
}

#[test]
fn detach_of_already_detached_tab_is_noop() {
    let mut r = Reg::new();
    let _ = r.add(&spec("t0", "/tmp"), false);
    r.force_detached("t0");
    assert!(
        r.detach("t0").is_none(),
        "nothing live here to extract a second time"
    );
    assert!(r.is_detached("t0"), "must stay Detached, not reset to Cold");
}

#[test]
fn detach_of_a_split_cold_tab_leaves_both_panes_alone() {
    let mut r = Reg::new();
    let _ = r.add(&spec("t0", "/tmp"), false);
    r.split("t0");
    assert!(r.detach("t0").is_none());
    assert!(!r.is_pane_detached("t0", PaneIdx::Primary));
    assert!(
        !r.is_pane_detached("t0", PaneIdx::Secondary),
        "the second pane must not be marked Detached when nothing was detached"
    );
    assert!(r.is_split("t0"), "the tab is still split, just cold");
}

#[test]
fn detach_of_an_already_detached_split_tab_is_a_noop_on_both_panes() {
    let mut r = Reg::new();
    let _ = r.add(&spec("t0", "/tmp"), false);
    r.split("t0");
    r.force_detached_pane("t0", PaneIdx::Primary);
    r.force_detached_pane("t0", PaneIdx::Secondary);
    assert!(
        r.detach("t0").is_none(),
        "nothing live here to extract a second time"
    );
    assert!(r.is_pane_detached("t0", PaneIdx::Primary));
    assert!(
        r.is_pane_detached("t0", PaneIdx::Secondary),
        "both placeholders must survive — their surfaces are in the popped-out window"
    );
}

#[test]
fn a_detached_split_tab_reads_as_detached_and_not_secondary_spawned() {
    let mut r = Reg::new();
    let _ = r.add(&spec("t0", "/tmp"), false);
    r.split("t0");
    r.force_detached_pane("t0", PaneIdx::Primary);
    r.force_detached_pane("t0", PaneIdx::Secondary);
    let dto = r.tab_dtos().into_iter().find(|d| d.id == "t0").unwrap();
    assert!(dto.detached);
    assert!(!dto.spawned);
    assert!(!dto.secondary_spawned);
}

#[test]
fn unload_of_a_detached_split_tab_keeps_both_placeholders() {
    let mut r = Reg::new();
    let _ = r.add(&spec("t0", "/tmp"), false);
    r.split("t0");
    r.force_detached_pane("t0", PaneIdx::Primary);
    r.force_detached_pane("t0", PaneIdx::Secondary);
    assert_eq!(r.unload("t0"), None, "no local surfaces to kill");
    assert!(r.is_pane_detached("t0", PaneIdx::Primary));
    assert!(
        r.is_pane_detached("t0", PaneIdx::Secondary),
        "a Detached secondary must not fall back to Cold — that would make it look \
         locally respawnable and duplicate the popped-out surface"
    );
}

#[test]
fn attach_recreates_a_missing_secondary_slot_with_the_split_spec() {
    let mut r = Reg::new();
    let _ = r.add(&spec("t0", "/tmp"), false);
    r.split("t0");
    let from_split = r.secondary_pane_spec("t0").unwrap();
    let from_attach = secondary_spec(&spec("t0", "/tmp"), "t0");
    assert_eq!(from_split.id, from_attach.id, "same surface id");
    assert_eq!(from_split.dir, from_attach.dir);
    assert_eq!(from_split.startup, from_attach.startup);
    assert_eq!(from_attach.id, "t0::2");
    assert!(
        from_attach.startup.is_none(),
        "the second pane runs a shell"
    );
}

#[test]
fn detached_tab_is_still_listed_by_describe() {
    let mut r = Reg::new();
    let _ = r.add(&spec("t0", "/tmp"), false);
    let _ = r.add(&spec("t1", "/tmp"), false);
    r.force_detached("t0");
    let dtos = r.tab_dtos();
    assert_eq!(
        dtos.len(),
        2,
        "detached tab must still be listed, not dropped"
    );
    let t0 = dtos.iter().find(|d| d.id == "t0").unwrap();
    assert!(t0.detached, "detached: true");
    assert!(!t0.spawned, "spawned: false alongside detached: true");
}


#[test]
fn unload_of_detached_tab_is_noop_and_stays_detached() {
    let mut r = Reg::new();
    let _ = r.add(&spec("t0", "/tmp"), false);
    r.force_detached("t0");
    assert_eq!(r.unload("t0"), None, "no local surface to kill");
    assert!(
        r.is_detached("t0"),
        "must stay Detached, not fall back to Cold"
    );
}

#[test]
fn ensure_spawned_by_id_never_respawns_a_detached_tab_or_panics_on_unknown() {
    let mut r = Reg::new();
    let _ = r.add(&spec("t0", "/tmp"), false);
    r.force_detached("t0");
    assert!(r.ensure_spawned_by_id("t0").is_ok());
    assert!(r.is_detached("t0"), "must stay Detached, not respawn");
    assert!(!r.is_spawned("t0"), "no second surface spawned here");
    r.split("t0");
    assert!(r.ensure_spawned_by_id("t0").is_ok());
    assert!(
        !r.is_spawned("t0"),
        "neither pane of a Detached tab may spawn locally"
    );
    assert!(
        r.ensure_spawned_by_id("does-not-exist").is_ok(),
        "unknown id is a clean no-op"
    );
}

#[test]
fn activate_never_spawns_a_secondary_for_a_detached_tab() {
    let mut r = Reg::new();
    let _ = r.add(&spec("t0", "/tmp"), false);
    r.split("t0");
    r.force_detached_pane("t0", PaneIdx::Primary);
    assert!(r.activate("t0").is_ok());
    assert!(
        !r.is_spawned("t0"),
        "neither pane of a Detached tab may spawn locally"
    );
}

#[test]
fn tab_dto_carries_the_structural_split_flag_not_just_liveness() {
    let mut r = Reg::new();
    r.add(&spec("a", "/tmp/a"), false).unwrap();
    let dto = |r: &Reg| r.tab_dtos().into_iter().find(|d| d.id == "a").unwrap();
    assert!(!dto(&r).split, "a fresh tab is unsplit");
    r.split("a");
    let d = dto(&r);
    assert!(d.split, "structurally split the instant `split` runs…");
    assert!(!d.secondary_spawned, "…even though nothing is live yet");
    r.close_secondary("a");
    assert!(!dto(&r).split);
}

#[test]
fn start_session_noop_for_detached_tab() {
    let mut r = Reg::new();
    let mut with_cmd = spec("t0", "/tmp");
    with_cmd.startup = Some("amux".into());
    let _ = r.add(&with_cmd, false);
    r.force_detached("t0");
    assert!(
        !r.start_session("t0"),
        "no local shell to type into once detached"
    );
}

#[test]
fn remove_of_detached_tab_does_not_panic_and_drops_placeholder() {
    let mut r = Reg::new();
    let _ = r.add(&spec("t0", "/tmp"), false);
    let _ = r.add(&spec("t1", "/tmp"), false);
    r.force_detached("t0");
    r.remove("t0");
    let ids: Vec<_> = r.tab_dtos().into_iter().map(|d| d.id).collect();
    assert_eq!(ids, vec!["t1".to_string()]);
}

#[test]
fn close_all_with_detached_tab_does_not_panic() {
    let mut r = Reg::new();
    let _ = r.add(&spec("t0", "/tmp"), false);
    r.force_detached("t0");
    r.close_all();
    assert_eq!(r.tab_dtos().len(), 0);
}

#[test]
fn has_probe_flag_reflects_spec() {
    let mut r = Reg::new();
    let _ = r.add(&spec_with_probe("t0", "/tmp", Some("x")), false);
    let _ = r.add(&spec_with_probe("t1", "/tmp", None), false);
    let dtos = r.tab_dtos();
    assert!(dtos[0].has_probe);
    assert!(!dtos[1].has_probe);
}

#[test]
fn probe_targets_lists_only_probe_enabled_tabs() {
    let mut r = Reg::new();
    let _ = r.add(&spec_with_probe("t0", "/tmp/a", Some("cmd-a")), false);
    let _ = r.add(&spec_with_probe("t1", "/tmp/b", None), false);
    let targets = r.probe_targets();
    assert_eq!(targets.len(), 1);
    assert_eq!(targets[0].0, "t0");
    assert_eq!(targets[0].1, String::from("/tmp/a"));
    assert_eq!(targets[0].2, "t0"); // title (= id here)
    assert_eq!(targets[0].3, "cmd-a");
}

#[test]
fn has_kill_flag_reflects_spec() {
    let mut r = Reg::new();
    let mut s_with = spec("t0", "/tmp");
    s_with.kill = Some("kill-cmd {dir}".into());
    let _ = r.add(&s_with, false);
    let _ = r.add(&spec("t1", "/tmp"), false); // kill: None
    let dtos = r.tab_dtos();
    assert!(dtos[0].has_kill);
    assert!(!dtos[1].has_kill);
}

#[test]
fn kill_target_returns_dir_title_cmd_only_when_set() {
    let mut r = Reg::new();
    let mut s = spec("t0", "/tmp/a");
    s.kill = Some("kill {title}".into());
    let _ = r.add(&s, false);
    let _ = r.add(&spec("t1", "/tmp/b"), false); // no kill
    assert_eq!(
        r.kill_target("t0"),
        Some((
            String::from("/tmp/a"),
            "t0".to_string(),
            "kill {title}".to_string()
        ))
    );
    assert_eq!(r.kill_target("t1"), None); // no kill command
    assert_eq!(r.kill_target("nope"), None); // unknown id
}

#[test]
fn has_cmd_flag_reflects_startup() {
    let mut r = Reg::new();
    let mut s_with = spec("t0", "/tmp");
    s_with.startup = Some("amux".into());
    let _ = r.add(&s_with, false);
    let _ = r.add(&spec("t1", "/tmp"), false); // startup: None
    let dtos = r.tab_dtos();
    assert!(dtos[0].has_cmd);
    assert!(!dtos[1].has_cmd);
}

#[test]
fn respawn_sequence_replaces_spec_for_same_id() {
    let mut r = Reg::new();
    let _ = r.add(&spec_with_probe("t0", "/tmp/old", Some("probe-cmd")), false);
    let _ = r.add(
        &spec_with_probe("t1", "/tmp/other", Some("probe-cmd")),
        false,
    );

    r.remove("t0");
    let _ = r.add(&spec_with_probe("t0", "/tmp/new", Some("probe-cmd")), false);

    let dtos = r.tab_dtos();
    assert_eq!(
        dtos.len(),
        2,
        "respawn must not leave a stray duplicate entry"
    );

    let targets = r.probe_targets();
    let t0_dir = targets.iter().find(|t| t.0 == "t0").unwrap().1.clone();
    assert_eq!(
        t0_dir,
        String::from("/tmp/new"),
        "respawn must replace the spec (new dir), not keep the stale one"
    );
    assert!(
        !r.is_spawned("t0"),
        "load_on_open=false respawn stays cold until next activate"
    );
}

#[test]
fn start_session_noop_when_cold_no_cmd_or_unknown() {
    let mut r = Reg::new();
    let mut with_cmd = spec("t0", "/tmp");
    with_cmd.startup = Some("amux".into());
    let _ = r.add(&with_cmd, false); // cold, has cmd
    let _ = r.add(&spec("t1", "/tmp"), false); // cold, no cmd
    assert!(!r.start_session("t0"), "cold tab: nothing to type into");
    assert!(
        !r.start_session("t1"),
        "no startup command → nothing to send"
    );
    assert!(!r.start_session("nope"), "unknown id");
}


#[test]
fn split_adds_a_secondary_and_close_removes_it() {
    let mut r = Reg::new();
    r.add(&spec("a", "/tmp/a"), false).unwrap();
    r.split("a");
    assert!(r.is_split("a"));
    assert!(r.close_secondary("a"));
    assert!(!r.is_split("a"));
}

fn spec_with_split(id: &str, cmd: Option<&str>) -> TabSpec {
    let mut s = spec(id, "/tmp/a");
    s.split = Some(Split {
        side: SplitSide::Left,
        size: 0.3f64.to_bits(),
        startup: cmd.map(String::from),
    });
    s
}

#[test]
fn add_with_config_split_declares_the_secondary_cold_with_its_cmd() {
    let mut r = Reg::new();
    r.add(&spec_with_split("a", Some("scratch")), false)
        .unwrap();
    assert!(
        r.is_split("a"),
        "a config split is declared at add, not on first ⌘D"
    );
    let sec = r.secondary_pane_spec("a").unwrap();
    assert_eq!(sec.id, "a::2");
    assert_eq!(sec.startup.as_deref(), Some("scratch"));
    assert_eq!(
        sec.split, None,
        "the second pane carries no split of its own"
    );
    let dto = &r.tab_dtos()[0];
    assert!(dto.split && !dto.secondary_spawned);
    let layout = dto.split_layout.as_ref().unwrap();
    assert_eq!((layout.side, layout.size), ("left", 0.3f64.to_bits()));
}

#[test]
fn config_split_closed_by_x_comes_back_on_unload() {
    let mut r = Reg::new();
    r.add(&spec_with_split("a", None), false).unwrap();
    assert!(r.close_secondary("a"));
    assert!(!r.is_split("a"));
    assert_eq!(r.unload("a"), None);
    assert!(r.is_split("a"));
    assert_eq!(r.tab_dtos()[0].split_layout.as_ref().unwrap().size, 0.3f64.to_bits());
}

#[test]
fn runtime_split_on_unsplit_config_has_no_layout_and_no_cmd() {
    let mut r = Reg::new();
    r.add(&spec("a", "/tmp/a"), false).unwrap();
    r.split("a");
    assert_eq!(r.secondary_pane_spec("a").unwrap().startup, None);
    assert!(r.tab_dtos()[0].split_layout.is_none());
}

#[test]
fn set_meta_updates_the_split_layout_live() {
    let mut r = Reg::new();
    r.add(&spec_with_split("a", None), false).unwrap();
    r.set_meta(
        "a",
        &TabMeta {
            group: None,
            probe: None,
            kill: None,
            title: "a".into(),
            split: Some(Split {
                side: SplitSide::Right,
                size: 0.6f64.to_bits(),
                startup: None,
            }),
        },
        false,
        Vec::new(),
    );
    let layout = r.tab_dtos()[0].split_layout.clone().unwrap();
    assert_eq!((layout.side, layout.size), ("right", 0.6f64.to_bits()));
}

#[test]
fn split_twice_is_a_noop_not_a_third_pane() {
    let mut r = Reg::new();
    r.add(&spec("a", "/tmp/a"), false).unwrap();
    r.split("a");
    r.split("a");
    assert!(r.is_split("a"));
}

#[test]
fn close_secondary_on_unsplit_tab_is_false() {
    let mut r = Reg::new();
    r.add(&spec("a", "/tmp/a"), false).unwrap();
    assert!(!r.close_secondary("a"));
}

#[test]
fn the_secondary_runs_a_bare_shell_in_the_tabs_dir() {
    let mut r = Reg::new();
    let mut s = spec("a", "/tmp/a");
    s.startup = Some("amux".into());
    r.add(&s, false).unwrap();
    r.split("a");
    let sec = r.secondary_pane_spec("a").expect("secondary present");
    assert_eq!(sec.dir, String::from("/tmp/a"));
    assert_eq!(sec.shell, s.shell);
    assert_eq!(
        sec.startup, None,
        "the scratch pane must not inherit the tab's cmd"
    );
    assert_ne!(sec.id, s.id, "panes need distinct ids for surface routing");
}

#[test]
fn closing_the_secondary_returns_focus_to_the_primary() {
    let mut r = Reg::new();
    r.add(&spec("a", "/tmp/a"), false).unwrap();
    r.split("a");
    assert!(r.focus_pane("a", PaneIdx::Secondary));
    assert_eq!(r.focused_pane("a"), Some(PaneIdx::Secondary));
    r.close_secondary("a");
    assert_eq!(r.focused_pane("a"), Some(PaneIdx::Primary));
}

#[test]
fn a_fresh_split_pane_is_cold_not_live() {
    let mut r = Reg::new();
    r.add(&spec("a", "/tmp/a"), false).unwrap();
    r.split("a");
    assert!(r.is_split("a"));
    assert!(!r.is_spawned("a"), "split must not spawn either pane");
}

#[test]
fn focusing_a_missing_secondary_is_refused() {
    let mut r = Reg::new();
    r.add(&spec("a", "/tmp/a"), false).unwrap();
    assert!(!r.focus_pane("a", PaneIdx::Secondary));
    assert_eq!(r.focused_pane("a"), Some(PaneIdx::Primary));
}



#[test]
fn a_pane_rect_is_remembered_for_later_spawns() {
    let mut r = Reg::new();
    r.add(&spec("a", "/tmp/a"), false).unwrap();
    let wide = PixelRect {
        x: 1.0f64.to_bits(),
        y: 2.0f64.to_bits(),
        width: 300.0f64.to_bits(),
        height: 400.0f64.to_bits(),
    };
    r.set_pane_frame(PaneIdx::Primary, wide);
    assert_eq!(r.rect_for(PaneIdx::Primary), wide);
}

#[test]
fn pane_rects_are_remembered_independently() {
    let mut r = Reg::new();
    r.add(&spec("a", "/tmp/a"), false).unwrap();
    let wide = PixelRect {
        x: 1.0f64.to_bits(),
        y: 2.0f64.to_bits(),
        width: 300.0f64.to_bits(),
        height: 400.0f64.to_bits(),
    };
    let narrow = PixelRect {
        x: 5.0f64.to_bits(),
        y: 6.0f64.to_bits(),
        width: 30.0f64.to_bits(),
        height: 40.0f64.to_bits(),
    };
    r.set_pane_frame(PaneIdx::Primary, wide);
    r.set_pane_frame(PaneIdx::Secondary, narrow);
    assert_eq!(r.rect_for(PaneIdx::Primary), wide);
    assert_eq!(r.rect_for(PaneIdx::Secondary), narrow);
}


#[test]
fn pane_index_round_trips_and_floors_to_primary() {
    assert_eq!(PaneIdx::Primary.index(), 0);
    assert_eq!(PaneIdx::Secondary.index(), 1);
    assert_eq!(PaneIdx::from_index(0), PaneIdx::Primary);
    assert_eq!(PaneIdx::from_index(1), PaneIdx::Secondary);
    assert_eq!(PaneIdx::from_index(7), PaneIdx::Primary, "never an error");
}

#[test]
fn clear_detached_returns_every_detached_pane_to_cold() {
    let mut r = Reg::new();
    let _ = r.add(&spec("t0", "/tmp"), false);
    r.split("t0");
    r.force_detached_pane("t0", PaneIdx::Primary);
    r.force_detached_pane("t0", PaneIdx::Secondary);
    assert!(r.is_detached("t0"));
    assert_eq!(r.clear_detached("t0"), None);
    assert!(!r.is_detached("t0"));
    assert!(!r.is_pane_detached("t0", PaneIdx::Secondary));
    assert!(
        r.is_split("t0"),
        "the split structure survives; only the slots go cold"
    );
    assert!(!r.is_spawned("t0"));
}

#[test]
fn clear_detached_leaves_a_cold_secondary_and_unknown_tabs_alone() {
    let mut r = Reg::new();
    let _ = r.add(&spec("t0", "/tmp"), false);
    r.split("t0");
    r.force_detached_pane("t0", PaneIdx::Primary); // secondary stayed Cold (never carried)
    assert_eq!(r.clear_detached("t0"), None);
    assert!(!r.is_detached("t0"));
    assert!(r.is_split("t0"));
    assert_eq!(
        r.clear_detached("t0"),
        None,
        "nothing detached any more → no-op"
    );
    assert_eq!(r.clear_detached("nope"), None);
}

#[test]
fn locate_surface_is_none_for_an_unknown_id() {
    let mut r = Reg::new();
    r.add(&spec("a", "/tmp/a"), false).unwrap();
    assert_eq!(r.locate_surface(999_999), None);
}

#[test]
fn panes_route_to_their_tab_primary_first() {
    let mut r = Registry::new(7, rect());
    r.add(&spec("a", "/a"), false, &grant).unwrap();
    r.split("a");
    assert_eq!(r.activate("a", &grant), Ok(true));
    assert_eq!(r.locate_surface(200), Some(("a".to_string(), PaneIdx::Primary)));
    assert_eq!(r.locate_surface(201), Some(("a".to_string(), PaneIdx::Secondary)));
    assert_eq!(r.tab_of_surface(201).as_deref(), Some("a"));
    assert_eq!(
        r.take_commands(),
        vec![
            SurfaceCmd::SetFrame(200, rect()),
            SurfaceCmd::Show(200),
            SurfaceCmd::Focus(200),
            SurfaceCmd::SetFrame(201, rect()),
            SurfaceCmd::Show(201),
        ],
        "both panes are shown, and only the focused one gets the keyboard"
    );
    assert_eq!(r.take_commands(), vec![], "nothing is carried out twice");
}

#[test]
fn showing_one_tab_hides_the_others() {
    let mut r = Registry::new(7, rect());
    r.add(&spec("a", "/a"), true, &grant).unwrap();
    r.add(&spec("b", "/bb"), false, &grant).unwrap();
    assert_eq!(r.take_commands(), vec![SurfaceCmd::Hide(200)]);
    assert_eq!(r.activate("b", &grant), Ok(true));
    assert_eq!(
        r.take_commands(),
        vec![
            SurfaceCmd::Hide(200),
            SurfaceCmd::SetFrame(300, rect()),
            SurfaceCmd::Show(300),
            SurfaceCmd::Focus(300),
        ]
    );
    assert_eq!(r.active_tab().as_deref(), Some("b"));
    assert_eq!(r.activate("b", &grant), Ok(false), "it is live already");
    assert_eq!(r.activate("nope", &grant), Ok(false));
    assert_eq!(r.active_tab().as_deref(), Some("b"));
}

#[test]
fn a_failed_spawn_leaves_the_tab_cold_and_selected() {
    let mut r = Registry::new(7, rect());
    assert_eq!(
        r.add(&spec("a", "/a"), true, &refuse),
        Err(SurfaceError::SurfaceCreateFailed)
    );
    assert_eq!(r.tab_ids(), vec!["a".to_string()]);
    assert_eq!(
        r.activate("a", &refuse),
        Err(SurfaceError::SurfaceCreateFailed)
    );
    assert!(!r.is_spawned("a"));
    assert_eq!(r.active_tab().as_deref(), Some("a"));
}

#[test]
fn unloading_the_shown_tab_leans_to_a_live_neighbour() {
    let mut r = Registry::new(7, rect());
    r.add(&spec("a", "/a"), true, &grant).unwrap();
    r.add(&spec("b", "/bb"), true, &grant).unwrap();
    r.add(&spec("c", "/ccc"), false, &grant).unwrap();
    r.activate("b", &grant).unwrap();
    let _ = r.take_commands();
    assert_eq!(r.unload("b", &grant).as_deref(), Some("a"));
    assert_eq!(r.active_tab().as_deref(), Some("a"));
    assert_eq!(
        r.take_commands(),
        vec![
            SurfaceCmd::Close(300),
            SurfaceCmd::SetFrame(200, rect()),
            SurfaceCmd::Show(200),
            SurfaceCmd::Focus(200),
        ]
    );
    assert_eq!(r.unload("a", &grant), None, "no live tab is left");
    assert_eq!(r.active_tab(), None);
}

#[test]
fn the_nearest_live_neighbour_is_the_next_one_first() {
    assert_eq!(pick_live_neighbour(1, &vec![true, false, false, true]), Some(3));
    assert_eq!(pick_live_neighbour(1, &vec![true, false, false]), Some(0));
    assert_eq!(pick_live_neighbour(0, &vec![true]), None);
}

#[test]
fn a_tab_pops_out_and_returns_with_its_terminals() {
    let mut r = Registry::new(7, rect());
    r.add(&spec("a", "/a"), false, &grant).unwrap();
    r.split("a");
    r.ensure_spawned_by_id("a", &grant).unwrap();
    assert_eq!(r.detach("a"), Some((200, Some(201))));
    assert!(r.is_detached("a"));
    assert_eq!(r.locate_surface(200), None, "it is elsewhere now");
    assert_eq!(r.attach("a", 200, Some(201)), Ok(()));
    assert_eq!(r.locate_surface(201), Some(("a".to_string(), PaneIdx::Secondary)));
    assert_eq!(
        r.attach("a", 7, None),
        Err((7, None)),
        "a live pane never gives way"
    );
    assert_eq!(r.attach("nope", 7, Some(8)), Err((7, Some(8))));
}

#[test]
fn starting_a_session_types_the_command_again() {
    let mut r = Registry::new(7, rect());
    let mut s = spec("a", "/a");
    s.startup = Some("amux".to_string());
    r.add(&s, true, &grant).unwrap();
    let _ = r.take_commands();
    assert!(r.start_session("a"));
    assert_eq!(
        r.take_commands(),
        vec![SurfaceCmd::Run(200, "amux".to_string())]
    );
}

#[test]
fn closing_everything_ends_every_terminal() {
    let mut r = Registry::new(7, rect());
    r.add(&spec("a", "/a"), true, &grant).unwrap();
    r.split("a");
    r.activate("a", &grant).unwrap();
    let _ = r.take_commands();
    r.close_all();
    assert_eq!(
        r.take_commands(),
        vec![SurfaceCmd::Close(200), SurfaceCmd::Close(201)]
    );
    assert_eq!(r.tab_ids(), Vec::<String>::new());
}

#[test]
fn a_rectangle_reaches_the_shown_tab_at_once() {
    let mut r = Registry::new(7, rect());
    r.add(&spec("a", "/a"), true, &grant).unwrap();
    r.activate("a", &grant).unwrap();
    let _ = r.take_commands();
    let wide = PixelRect {
        x: 1,
        y: 2,
        width: 3,
        height: 4,
    };
    r.set_pane_frame(PaneIdx::Primary, wide);
    r.set_pane_frame(PaneIdx::Secondary, wide);
    assert_eq!(r.take_commands(), vec![SurfaceCmd::SetFrame(200, wide)]);
}

#[test]
fn a_terminal_starts_once_the_one_it_replaces_has_ended() {
    let mut r = Registry::new(7, rect());
    r.add(&spec("a", "/tmp/a"), true, &grant).unwrap();
    r.add(&spec("b", "/tmp/bb"), true, &grant).unwrap();
    r.take_commands();
    r.remove("a");
    let asked = std::cell::RefCell::new(Vec::new());
    let watch = |ask: &Ask| {
        if let Ask::Terminal(q) = ask {
            asked
                .borrow_mut()
                .push((q.window, q.spec.dir.clone(), q.ended.clone()));
        }
        grant(ask)
    };
    r.add(&spec("a", "/tmp/ccc"), true, &watch).unwrap();
    assert_eq!(asked.into_inner(), vec![(7, "/tmp/ccc".to_string(), vec![600])]);
    let cmds = r.take_commands();
    assert_eq!(cmds, vec![SurfaceCmd::Close(600), SurfaceCmd::Hide(800)]);
}
