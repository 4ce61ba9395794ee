use warden::presence::{Presence, PresenceMap};
use warden::probe::{
    advance, await_pending, bump, bump_all, bump_tab, bump_tab_await, install_bump_tx, observe,
    order_work, presence_changed, probe_step, substitute, sweep_jobs, sweep_workers, Bump,
    BumpQueue, Cadence, Observation, ProbeEvent, ProbeStep, Scheduler, AGREE_TARGET, CAP, FAST,
    MAX_PROBE_CONCURRENCY, PROBE_TIMEOUT,
};
use warden::registry::ProbeTarget;

#[test]
fn substitute_replaces_dir_and_title() {
    let out = substitute("x {title} {dir} y", "/tmp/p", "proj");
    assert_eq!(out, "x proj /tmp/p y");
}

#[test]
fn substitute_leaves_unknown_text_verbatim() {
    let out = substitute("check-session --name proj", "/tmp", "proj");
    assert_eq!(out, "check-session --name proj");
}







#[test]
fn advance_settles_after_agree_target_unchanged_passes() {
    let (a1, c1) = advance(false, 0, 400, 5, false);
    assert_eq!(a1, 1);
    assert!(matches!(c1, Cadence::Fast));
    let (a2, c2) = advance(false, a1, 800, 5, false);
    assert_eq!(a2, 2);
    assert!(matches!(c2, Cadence::Fast));
    let (a3, c3) = advance(false, a2, 1200, 5, false);
    assert_eq!(a3, 3);
    assert!(matches!(c3, Cadence::Slow(5)));
}

#[test]
fn advance_change_resets_agreement_and_stays_fast() {
    let (a, c) = advance(true, 2, 1200, 5, false);
    assert_eq!(a, 0);
    assert!(matches!(c, Cadence::Fast));
}

#[test]
fn advance_settled_with_zero_slow_goes_idle() {
    let (_, c) = advance(
        false,
        AGREE_TARGET - 1,
        1200,
        0,
        false,
    );
    assert!(matches!(c, Cadence::Idle));
}

#[test]
fn advance_caps_a_flapping_signal_to_slow() {
    let (a, c) = advance(true, 0, CAP + 1_000, 5, false);
    assert_eq!(a, 0);
    assert!(matches!(c, Cadence::Slow(5)));
}

#[test]
fn advance_cap_with_zero_slow_goes_idle() {
    let (_, c) = advance(true, 0, CAP + 1_000, 0, false);
    assert!(matches!(c, Cadence::Idle));
}

#[test]
fn advance_awaiting_pending_refuses_to_settle_on_the_old_state() {
    for agree in [0, 1, 2, AGREE_TARGET, 99] {
        let (a, c) = advance(false, agree, 1200, 5, true);
        assert_eq!(a, 0, "agreement is reset while awaiting");
        assert!(
            matches!(c, Cadence::Fast),
            "an awaiting window stays Fast even after AGREE_TARGET unchanged passes"
        );
    }
}

#[test]
fn advance_cap_wins_over_a_stuck_await() {
    let (_, c) = advance(false, 0, CAP + 1_000, 5, true);
    assert!(matches!(c, Cadence::Slow(5)));
    let (_, c0) = advance(false, 0, CAP, 0, true);
    assert!(
        matches!(c0, Cadence::Idle),
        "capped await with slow==0 → Idle"
    );
}

#[test]
fn await_pending_is_directional_and_self_satisfying() {
    assert!(
        await_pending(Presence::Absent, true),
        "no session yet → keep waiting"
    );
    assert!(
        await_pending(Presence::Recoverable, true),
        "a ghost is not the live session a start awaits → keep waiting"
    );
    assert!(
        !await_pending(Presence::Present, true),
        "session up → satisfied (so a warm tab-switch never bursts to CAP)"
    );
    assert!(
        await_pending(Presence::Present, false),
        "still live → keep waiting for teardown"
    );
    assert!(
        !await_pending(Presence::Absent, false),
        "gone → satisfied (a kill of an already-dead session disarms at once)"
    );
    assert!(
        !await_pending(Presence::Recoverable, false),
        "left Present (crashed to a ghost) → the kill's leave-Present await is satisfied"
    );
}



#[test]
fn presence_wire_values_match_chrome_core() {
    assert_eq!(Presence::Present.as_str(), "on");
    assert_eq!(Presence::Recoverable.as_str(), "ghost");
    assert_eq!(Presence::Absent.as_str(), "off");
}


#[test]
fn presence_changed_detects_every_transition_including_ghost() {
    let mut prev = PresenceMap::new();
    prev.insert("a", Presence::Present);
    prev.insert("b", Presence::Absent);
    prev.insert("g", Presence::Recoverable);

    assert!(!presence_changed(&prev, "a", Presence::Present));
    assert!(!presence_changed(&prev, "g", Presence::Recoverable));

    assert!(
        presence_changed(&prev, "b", Presence::Recoverable),
        "absent→recoverable (a crash just became restorable) must emit"
    );
    assert!(
        presence_changed(&prev, "g", Presence::Absent),
        "recoverable→absent (the offer burned) must emit"
    );
    assert!(
        presence_changed(&prev, "g", Presence::Present),
        "recoverable→present (the restore landed) must emit"
    );
    assert!(
        presence_changed(&prev, "a", Presence::Recoverable),
        "present→recoverable (the session crashed) must emit"
    );

    assert!(presence_changed(&prev, "c", Presence::Absent));
}


fn work(ids: &[&str]) -> Vec<ProbeTarget> {
    ids.iter()
        .map(|s| {
            (
                s.to_string(),
                "/tmp".to_string(),
                s.to_string(),
                s.to_string(),
            )
        })
        .collect()
}

fn ids_of(w: &[ProbeTarget]) -> Vec<String> {
    w.iter().map(|(id, ..)| id.clone()).collect()
}

#[test]
fn order_work_moves_priority_to_front_preserving_rest() {
    let mut w = work(&["a", "b", "c", "d"]);
    order_work(&mut w, Some("c"));
    assert_eq!(ids_of(&w), ["c", "a", "b", "d"]); // c to front, rest keep relative order
}

#[test]
fn order_work_noop_for_absent_or_none_priority() {
    let mut w = work(&["a", "b", "c"]);
    order_work(&mut w, Some("zz")); // not in the list → unchanged
    assert_eq!(ids_of(&w), ["a", "b", "c"]);
    order_work(&mut w, None); // whole-window bump → natural order
    assert_eq!(ids_of(&w), ["a", "b", "c"]);
    order_work(&mut w, Some("a")); // already first → unchanged
    assert_eq!(ids_of(&w), ["a", "b", "c"]);
}

#[test]
fn bump_before_install_is_a_noop() {
    let mut q = BumpQueue::new();
    bump(&mut q, "nonexistent-window");
    bump_tab(&mut q, "nonexistent-window", "some-tab");
    assert_eq!(q.drain(), vec![]);
}

#[test]
fn bumps_wait_for_the_scheduler_in_order() {
    let mut q = BumpQueue::new();
    install_bump_tx(&mut q);
    bump_all(&mut q, &vec!["a".to_string(), "b".to_string()]);
    bump_tab_await(&mut q, "a", "t", false);
    assert_eq!(
        q.drain(),
        vec![
            Bump {
                label: "a".to_string(),
                tab: None,
                await_present: None
            },
            Bump {
                label: "b".to_string(),
                tab: None,
                await_present: None
            },
            Bump {
                label: "a".to_string(),
                tab: Some("t".to_string()),
                await_present: Some(false)
            },
        ]
    );
    assert_eq!(q.drain(), vec![], "each request is taken once");
}

#[test]
fn observe_records_before_it_emits() {
    let log: Vec<String> = observe(&PresenceMap::new(), "t0", Presence::Present)
        .into_iter()
        .map(|o| match o {
            Observation::Record(id, on) => format!("record {id}={on:?}"),
            Observation::Emit(id, on) => format!("emit {id}={on:?}"),
        })
        .collect();
    assert_eq!(
        log,
        vec![
            "record t0=Present".to_string(),
            "emit t0=Present".to_string()
        ],
        "record must precede emit"
    );
}

#[test]
fn observe_records_an_unchanged_result_but_stays_silent() {
    let mut prev = PresenceMap::new();
    prev.insert("t0", Presence::Present);
    let seen = observe(&prev, "t0", Presence::Present);
    assert_eq!(
        seen,
        vec![Observation::Record("t0".to_string(), Presence::Present)],
        "unchanged → no re-emit (a settled window's pass is silent)"
    );
}

#[test]
fn sweep_probes_priority_tab_first() {
    let jobs = sweep_jobs(work(&["a", "b", "c", "d", "e"]), Some("d"));
    assert_eq!(jobs.first().map(|j| j.cmd.as_str()), Some("d"));
    let ids: Vec<String> = jobs.into_iter().map(|j| j.id).collect();
    assert_eq!(ids, ["d", "a", "b", "c", "e"]);
}

#[test]
fn a_sweep_never_has_more_workers_than_jobs_or_than_allowed() {
    assert_eq!(sweep_workers(4, 20), 4);
    assert_eq!(sweep_workers(4, 2), 2);
    assert_eq!(sweep_workers(MAX_PROBE_CONCURRENCY, 20), 16);
}

/// What a probe that ended with `code` says.
fn report(code: Option<i32>) -> Presence {
    match probe_step(ProbeEvent::Exited(code)) {
        ProbeStep::Report(found) => found,
        other => panic!("expected a report, got {other:?}"),
    }
}

#[test]
fn presence_maps_exit_codes_to_three_states() {
    assert_eq!(report(Some(0)), Presence::Present, "exit 0 ⇒ live session");
    assert_eq!(report(Some(3)), Presence::Recoverable, "exit 3 ⇒ recoverable");
    assert_eq!(report(Some(1)), Presence::Absent, "exit 1 ⇒ nothing");
    assert_eq!(report(Some(2)), Presence::Absent, "unknown non-zero ⇒ absent");
    assert_eq!(report(Some(7)), Presence::Absent, "unknown non-zero ⇒ absent");
    assert_eq!(report(None), Presence::Absent, "a signal");
}

#[test]
fn a_broken_probe_is_absent_not_recoverable() {
    assert_eq!(
        report(Some(127)),
        Presence::Absent,
        "a command that cannot run is absent, never recoverable"
    );
}

#[test]
fn run_probe_false_for_spawn_failure() {
    assert_eq!(
        probe_step(ProbeEvent::SpawnFailed),
        ProbeStep::Report(Presence::Absent)
    );
    assert_eq!(
        probe_step(ProbeEvent::WaitFailed),
        ProbeStep::Report(Presence::Absent)
    );
}

#[test]
fn run_probe_times_out_wedged_command() {
    assert_eq!(
        probe_step(ProbeEvent::Running(PROBE_TIMEOUT - 1)),
        ProbeStep::Wait
    );
    assert_eq!(
        probe_step(ProbeEvent::Running(PROBE_TIMEOUT)),
        ProbeStep::Kill,
        "probe should return around the timeout, not wait out the sleep"
    );
}

#[test]
fn a_scheduler_bursts_until_three_looks_agree() {
    let live = vec!["w".to_string()];
    let mut s = Scheduler::new();
    let wake = vec![Bump {
        label: "w".to_string(),
        tab: Some("t".to_string()),
        await_present: None,
    }];
    assert_eq!(s.turn(&wake, &live, 1_000, 5), live, "due at once");
    let (priority, prev) = s.begin_pass("w").unwrap();
    assert_eq!(priority.as_deref(), Some("t"));
    assert_eq!(prev.ids(), Vec::<String>::new());
    let mut seen = PresenceMap::new();
    seen.insert("t", Presence::Present);
    s.finish_pass("w", seen.clone(), 1_000, 5);
    let none: Vec<String> = vec![];
    let mut now = 1_000;
    for _ in 0..3 {
        assert_eq!(s.turn(&vec![], &live, now + FAST - 1, 5), none, "not yet");
        now += FAST;
        assert_eq!(s.turn(&vec![], &live, now, 5), live);
        assert_eq!(s.begin_pass("w").unwrap().0, None, "the tab led once");
        s.finish_pass("w", seen.clone(), now, 5);
    }
    assert_eq!(s.turn(&vec![], &live, now + FAST, 5), none, "settled");
    assert_eq!(s.turn(&vec![], &live, now + 5_000, 5), live, "the slow poll");
    assert_eq!(s.turn(&vec![], &none, now + 5_000, 5), none, "closed");
}
