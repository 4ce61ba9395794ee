//! What the chrome of a window asks for.

use crate::manager::{
    detached_framed, detached_index, is_live, is_out, is_snapshot, out_of_tab, settled,
    window_index, with_effect, Effect, EffectView, InitDto, InitDtoView, ManagerView,
    WindowManager, WindowStateView,
};
use crate::popout::{out_secondary_closed, pane_closed_said, redocking};
use crate::presence::{known_of, PresenceMap};
use crate::probe::{
    bump, bump_tab, bump_tab_await, queued, substitute, substituted, BumpQueue, BumpView,
};
use crate::registry::{
    activation, can_ask, focus_moved, framed, has_probe, kill_of, known, secondary_closed,
    split_tab, start_cmds, tab_at, unloading, Ask, Outcome, PaneIdx, PixelRect, RegistryView,
};
use crate::surface::SurfaceError;
use crate::text::{copy_opt, opt_view, owned};
use vstd::prelude::*;

verus! {

/// What the chrome learns of a tab that it activated.
#[derive(Debug, Clone, Copy, PartialEq, Eq, Structural)]
pub struct ActivateResult {
    /// Whether a terminal covers the hole.
    pub live: bool,
    pub split: bool,
    /// The pane that has the keyboard.
    pub focused: usize,
}

/// Whether tab `id` of `v` is split, and which of its panes has the keyboard.
pub open spec fn layout_at(v: RegistryView, id: Seq<char>) -> (bool, usize) {
    if known(v.tabs, id) && tab_at(v.tabs, id).secondary is Some {
        (true, tab_at(v.tabs, id).focused.number())
    } else {
        (false, 0)
    }
}

/// The manager after a spawn of the window labelled `label` failed, if it did.
pub open spec fn spawn_failed(
    m: ManagerView,
    label: Seq<char>,
    r: Result<bool, SurfaceError>,
) -> ManagerView {
    match r {
        Ok(_) => m,
        Err(e) => with_effect(
            m,
            EffectView::Error {
                window: Some(label),
                message: "couldn't open terminal: "@ + e.text(),
            },
        ),
    }
}

/// Whether `n` is `m` with a new snapshot for the chrome of window `i`.
pub open spec fn refreshing(m: ManagerView, i: int, n: ManagerView) -> bool {
    exists|d: InitDtoView|
        {
            &&& #[trigger] is_snapshot(
                d,
                m.windows[i],
                known_of(m.presence, m.windows[i].label),
                m.last_good,
                m.windows[i].spawn_error,
            )
            &&& n == with_effect(m, EffectView::Refresh(d))
        }
}

/// Whether activating tab `id` of the window labelled `label` may lead from
/// `m` to `n` and report `r`; `fresh` is whether its terminal was spawned just
/// now. Where there is no such window, there is nothing to cover.
pub open spec fn tab_activates<F: Fn(&Ask) -> Outcome>(
    spawn: &F,
    m: ManagerView,
    label: Seq<char>,
    id: Seq<char>,
    n: ManagerView,
    r: ActivateResult,
    fresh: bool,
) -> bool {
    let i = window_index(m, label);
    if is_live(m, label) {
        exists|v: RegistryView, a: Result<bool, SurfaceError>|
            {
                &&& #[trigger] activation(spawn, m.windows[i].registry, id, v, a)
                &&& r == (ActivateResult {
                    live: a is Ok,
                    split: layout_at(v, id).0,
                    focused: layout_at(v, id).1,
                })
                &&& fresh == (a == Ok::<bool, SurfaceError>(true))
                &&& if r.split {
                    refreshing(spawn_failed(settled(m, i, v), label, a), i, n)
                } else {
                    n == spawn_failed(settled(m, i, v), label, a)
                }
            }
    } else {
        n == m && r == (ActivateResult { live: true, split: false, focused: 0 }) && !fresh
    }
}

/// The request to look at a tab that was activated: at a terminal that was
/// just spawned and has a probe, until its session is up.
pub open spec fn activation_bump(
    m: ManagerView,
    label: Seq<char>,
    id: Seq<char>,
    fresh: bool,
) -> BumpView {
    BumpView {
        label,
        tab: Some(id),
        await_present: if fresh && has_probe(m.windows[window_index(m, label)].registry.tabs, id) {
            Some(true)
        } else {
            None
        },
    }
}

/// Whether splitting tab `id` of the window labelled `label` may lead from `m`
/// to `n` and report `r`.
pub open spec fn tab_splits<F: Fn(&Ask) -> Outcome>(
    spawn: &F,
    m: ManagerView,
    label: Seq<char>,
    id: Seq<char>,
    n: ManagerView,
    r: Result<(), String>,
) -> bool {
    let i = window_index(m, label);
    if is_live(m, label) {
        exists|v: RegistryView, a: Result<bool, SurfaceError>|
            {
                &&& #[trigger] activation(spawn, split_tab(m.windows[i].registry, id), id, v, a)
                &&& match a {
                    Ok(_) => r is Ok,
                    Err(e) => r is Err && r->Err_0@ == "could not open the second pane: "@
                        + e.text(),
                }
                &&& refreshing(settled(m, i, v), i, n)
            }
    } else {
        n == m && r is Err && r->Err_0@ == "window not found"@
    }
}

/// The manager after the chrome of a window reported the rectangle of a hole.
/// A report without a pane is for the first one.
pub open spec fn hole_framed(
    m: ManagerView,
    label: Seq<char>,
    pane: Option<usize>,
    rect: PixelRect,
) -> ManagerView {
    let which = if pane == Some(1usize) {
        PaneIdx::Secondary
    } else {
        PaneIdx::Primary
    };
    let i = window_index(m, label);
    if is_live(m, label) {
        settled(m, i, framed(m.windows[i].registry, which, rect))
    } else {
        detached_framed(m, label, which, rect)
    }
}

impl WindowManager {
    /// Activate tab `id` of the window labelled `label`. A terminal that could
    /// not be spawned is reported in that window only.
    pub fn activate_tab<F: Fn(&Ask) -> Outcome>(
        &mut self,
        label: &str,
        id: &str,
        q: &mut BumpQueue,
        spawn: &F,
    ) -> (r: ActivateResult)
        requires
            can_ask(spawn),
        ensures
            exists|fresh: bool|
                {
                    &&& tab_activates(spawn, old(self)@, label@, id@, final(self)@, r, fresh)
                    &&& final(q)@ == queued(
                        old(q)@,
                        #[trigger] activation_bump(old(self)@, label@, id@, fresh),
                    )
                },
    {
        let ghost m0 = self@;
        match self.find_window(label) {
            None => {
                bump_tab(q, label, id);
                let r = ActivateResult { live: true, split: false, focused: 0 };
                assert(tab_activates(spawn, m0, label@, id@, self@, r, false));
                assert(activation_bump(m0, label@, id@, false).await_present is None);
                r
            },
            Some(i) => {
                let ghost w0 = m0.windows[i as int];
                let probed: bool = self.windows[i].registry.tab_has_probe(id);
                let a: Result<bool, SurfaceError> = self.windows[i].registry.activate(id, spawn);
                let ghost v = self@.windows[i as int].registry;
                assert(self@.windows[i as int] == self.windows@[i as int]@);
                assert(activation(spawn, w0.registry, id@, v, a));
                assert(self@.windows =~= m0.windows.update(
                    i as int,
                    WindowStateView { registry: v, ..w0 },
                ));
                let split: bool = self.windows[i].registry.is_split(id);
                let focused: usize = if split {
                    match self.windows[i].registry.focused_pane(id) {
                        Some(p) => p.index(),
                        None => 0,
                    }
                } else {
                    0
                };
                self.settle(i);
                assert(self@.windows =~= settled(m0, i as int, v).windows);
                let (live, fresh) = match a {
                    Ok(f) => (true, f),
                    Err(e) => {
                        let mut m: String = owned("couldn't open terminal: ");
                        let why: String = e.message();
                        m.append(why.as_str());
                        self.push_effect(
                            Effect::Error { window: Some(owned(label)), message: m },
                        );
                        (false, false)
                    },
                };
                let ghost m1 = self@;
                assert(m1 == spawn_failed(settled(m0, i as int, v), label@, a));
                if fresh && probed {
                    bump_tab_await(q, label, id, true);
                } else {
                    bump_tab(q, label, id);
                }
                if split {
                    self.refresh(i);
                }
                let r = ActivateResult { live, split, focused };
                assert(tab_activates(spawn, m0, label@, id@, self@, r, fresh));
                assert(q@ == queued(old(q)@, activation_bump(m0, label@, id@, fresh)));
                r
            },
        }
    }

    /// Give the chrome of window `i` a new snapshot.
    fn refresh(&mut self, i: usize)
        requires
            i < old(self)@.windows.len(),
        ensures
            refreshing(old(self)@, i as int, final(self)@),
    {
        let ghost m0 = self@;
        assert(m0.windows.len() == self.windows@.len());
        assert(m0.windows[i as int] == self.windows@[i as int]@);
        let dto: InitDto = self.snapshot(
            i,
            &self.last_good,
            copy_opt(&self.windows[i].spawn_error),
        );
        assert(is_snapshot(
            dto@,
            m0.windows[i as int],
            known_of(m0.presence, m0.windows[i as int].label),
            m0.last_good,
            m0.windows[i as int].spawn_error,
        ));
        self.push_effect(Effect::Refresh(dto));
    }

    /// Give the chrome of the window labelled `label` a new snapshot, if it is
    /// live.
    pub fn refresh_window(&mut self, label: &str)
        ensures
            if is_live(old(self)@, label@) {
                refreshing(old(self)@, window_index(old(self)@, label@), final(self)@)
            } else {
                final(self)@ == old(self)@
            },
    {
        match self.find_window(label) {
            Some(i) => {
                self.refresh(i);
            },
            None => {},
        }
    }

    /// A popped-out window closed: bring its tab back, give the window it came
    /// from a new snapshot, and look at that window's sessions.
    pub fn return_tab<F: Fn(&Ask) -> Outcome>(
        &mut self,
        label: &str,
        q: &mut BumpQueue,
        spawn: &F,
    )
        requires
            can_ask(spawn),
        ensures
            tab_returns(spawn, old(self)@, label@, final(self)@),
            final(q)@ == (if old(self)@.quitting || !is_out(old(self)@, label@) {
                old(q)@
            } else {
                queued(
                    old(q)@,
                    BumpView {
                        label: old(self)@.detached[detached_index(
                            old(self)@,
                            label@,
                        )].origin_label,
                        tab: None,
                        await_present: None,
                    },
                )
            }),
            match return_bump(old(self)@, label@) {
                Some(b) => final(q)@ == queued(old(q)@, b),
                None => final(q)@ == old(q)@,
            },
    {
        let ghost m0 = self@;
        let home: Option<String> = self.redock(label, spawn);
        let ghost mid = self@;
        assert(redocking(spawn, m0, label@, mid));
        match home {
            Some(origin) => {
                self.refresh_window(origin.as_str());
                bump(q, origin.as_str());
            },
            None => {},
        }
    }

    /// Unload tab `id` of the window labelled `label`: its terminals end.
    /// Returns the tab that is shown in its place, if it was shown.
    pub fn unload_tab<F: Fn(&Ask) -> Outcome>(
        &mut self,
        label: &str,
        id: &str,
        spawn: &F,
    ) -> (r: Option<String>)
        requires
            can_ask(spawn),
        ensures
            tab_unloads(spawn, old(self)@, label@, id@, final(self)@, opt_view(r)),
    {
        let ghost m0 = self@;
        match self.find_window(label) {
            None => None,
            Some(i) => {
                let ghost w0 = m0.windows[i as int];
                let r: Option<String> = self.windows[i].registry.unload(id, spawn);
                assert(self@.windows[i as int] == self.windows@[i as int]@);
                let ghost v = self@.windows[i as int].registry;
                assert(self@.windows =~= m0.windows.update(
                    i as int,
                    WindowStateView { registry: v, ..w0 },
                ));
                self.settle(i);
                assert(self@.windows =~= settled(m0, i as int, v).windows);
                assert(unloading(spawn, w0.registry, id@, v, opt_view(r)));
                r
            },
        }
    }

    /// Split tab `id` of the window labelled `label` and show it. A tab that
    /// is split stays so.
    pub fn split_pane<F: Fn(&Ask) -> Outcome>(
        &mut self,
        label: &str,
        id: &str,
        spawn: &F,
    ) -> (r: Result<(), String>)
        requires
            can_ask(spawn),
        ensures
            tab_splits(spawn, old(self)@, label@, id@, final(self)@, r),
    {
        let ghost m0 = self@;
        match self.find_window(label) {
            None => Err(owned("window not found")),
            Some(i) => {
                let ghost w0 = m0.windows[i as int];
                self.windows[i].registry.split(id);
                let ghost before = split_tab(w0.registry, id@);
                assert(self.windows@[i as int].registry@ == before);
                let a: Result<bool, SurfaceError> = self.windows[i].registry.activate(id, spawn);
                assert(self@.windows[i as int] == self.windows@[i as int]@);
                let ghost v = self@.windows[i as int].registry;
                assert(self@.windows =~= m0.windows.update(
                    i as int,
                    WindowStateView { registry: v, ..w0 },
                ));
                self.settle(i);
                assert(self@.windows =~= settled(m0, i as int, v).windows);
                assert(activation(spawn, before, id@, v, a));
                self.refresh(i);
                match a {
                    Ok(_) => Ok(()),
                    Err(e) => {
                        let mut m: String = owned("could not open the second pane: ");
                        let why: String = e.message();
                        m.append(why.as_str());
                        Err(m)
                    },
                }
            },
        }
    }

    /// Close the second pane of tab `id`. Returns whether there was one.
    pub fn close_pane(&mut self, label: &str, id: &str) -> (r: bool)
        ensures
            if is_live(old(self)@, label@) {
                let i = window_index(old(self)@, label@);
                let v = old(self)@.windows[i].registry;
                &&& final(self)@ == settled(old(self)@, i, secondary_closed(v, id@))
                &&& r == (known(v.tabs, id@) && tab_at(v.tabs, id@).secondary is Some)
            } else {
                final(self)@ == old(self)@ && !r
            },
    {
        let ghost m0 = self@;
        match self.find_window(label) {
            None => false,
            Some(i) => {
                let ghost w0 = m0.windows[i as int];
                let r: bool = self.windows[i].registry.close_secondary(id);
                let ghost v = secondary_closed(w0.registry, id@);
                assert(self@.windows =~= m0.windows.update(
                    i as int,
                    WindowStateView { registry: v, ..w0 },
                ));
                self.settle(i);
                assert(self@.windows =~= settled(m0, i as int, v).windows);
                r
            },
        }
    }

    /// Give the keyboard to a pane of tab `id`. Returns whether there is one.
    pub fn focus_pane(&mut self, label: &str, id: &str, pane: usize) -> (r: bool)
        ensures
            if is_live(old(self)@, label@) {
                let i = window_index(old(self)@, label@);
                let v = old(self)@.windows[i].registry;
                let which = if pane == 1 {
                    PaneIdx::Secondary
                } else {
                    PaneIdx::Primary
                };
                &&& final(self)@ == settled(old(self)@, i, focus_moved(v, id@, which))
                &&& r == (known(v.tabs, id@) && tab_at(v.tabs, id@).pane(which) is Some)
            } else {
                final(self)@ == old(self)@ && !r
            },
            final(self)@ == pane_focused(old(self)@, label@, id@, pane),
    {
        let ghost m0 = self@;
        let which: PaneIdx = PaneIdx::from_index(pane);
        match self.find_window(label) {
            None => false,
            Some(i) => {
                let ghost w0 = m0.windows[i as int];
                let r: bool = self.windows[i].registry.focus_pane(id, which);
                let ghost v = focus_moved(w0.registry, id@, which);
                assert(self@.windows =~= m0.windows.update(
                    i as int,
                    WindowStateView { registry: v, ..w0 },
                ));
                self.settle(i);
                assert(self@.windows =~= settled(m0, i as int, v).windows);
                r
            },
        }
    }

    /// Close a hole of a popped-out window: only the second one can be.
    pub fn close_hole(&mut self, label: &str, pane: usize)
        ensures
            final(self)@ == (if pane == 1 && is_out(old(self)@, label@) && old(
                self,
            )@.detached[detached_index(old(self)@, label@)].secondary is Some {
                let d = old(self)@.detached[detached_index(old(self)@, label@)];
                pane_closed_said(
                    out_secondary_closed(old(self)@, label@),
                    label@,
                    d.origin_label,
                    d.tab_id,
                )
            } else {
                old(self)@
            }),
            final(self)@ == hole_closed(old(self)@, label@, pane),
    {
        match PaneIdx::from_index(pane) {
            PaneIdx::Primary => {},
            PaneIdx::Secondary => {
                match self.close_detached_secondary(label) {
                    Some((origin, tab)) => {
                        self.announce_detached_secondary_closed(
                            label,
                            origin.as_str(),
                            tab.as_str(),
                        );
                    },
                    None => {},
                }
            },
        }
    }

    /// Raise the window that tab `id` was popped out into.
    pub fn raise_popped_window(&mut self, label: &str, id: &str)
        ensures
            final(self)@ == (match out_of_tab(old(self)@.detached, label@, id@, 0) {
                Some(l) => with_effect(old(self)@, EffectView::FocusWindow(l)),
                None => old(self)@,
            }),
            final(self)@ == raised(old(self)@, label@, id@),
    {
        match self.detached_label_for(label, id) {
            Some(l) => {
                self.push_effect(Effect::FocusWindow(l));
            },
            None => {},
        }
    }

    /// Close the window that tab `id` was popped out into; the tab comes back
    /// once it is gone.
    pub fn pop_in_tab(&mut self, label: &str, id: &str)
        ensures
            final(self)@ == (match out_of_tab(old(self)@.detached, label@, id@, 0) {
                Some(l) => with_effect(old(self)@, EffectView::CloseWindow(l)),
                None => old(self)@,
            }),
            final(self)@ == called_in(old(self)@, label@, id@),
    {
        match self.detached_label_for(label, id) {
            Some(l) => {
                self.push_effect(Effect::CloseWindow(l));
            },
            None => {},
        }
    }

    /// The command that ends tab `id`'s session, with its tokens filled in,
    /// and the directory to run it in. The terminal is not touched.
    pub fn kill_session(&self, label: &str, id: &str) -> (r: Option<(String, String)>)
        ensures
            match r {
                Some(c) => {
                    let t = tab_at(
                        self@.windows[window_index(self@, label@)].registry.tabs,
                        id@,
                    );
                    &&& has_kill(self@, label@, id@)
                    &&& c.0@ == substituted(
                        t.primary.spec.kill->0,
                        t.primary.spec.dir,
                        t.title,
                    )
                    &&& c.1@ == t.primary.spec.dir
                },
                None => !has_kill(self@, label@, id@),
            },
            match r {
                Some(c) => kill_job(self@, label@, id@) == Some((c.0@, c.1@)),
                None => kill_job(self@, label@, id@) is None,
            },
    {
        match self.find_window(label) {
            None => None,
            Some(i) => match self.windows[i].registry.kill_target(id) {
                Some((dir, title, cmd)) => Some(
                    (substitute(cmd.as_str(), dir.as_str(), title.as_str()), dir),
                ),
                None => None,
            },
        }
    }

    /// Type tab `id`'s startup command again, and look at the tab until its
    /// session is up. Returns whether anything was typed.
    pub fn start_session(&mut self, label: &str, id: &str, q: &mut BumpQueue) -> (r: bool)
        ensures
            if is_live(old(self)@, label@) {
                let i = window_index(old(self)@, label@);
                let v = old(self)@.windows[i].registry;
                &&& r == (start_cmds(v, id@).len() > 0)
                &&& final(self)@ == settled(
                    old(self)@,
                    i,
                    (RegistryView { outbox: v.outbox + start_cmds(v, id@), ..v }),
                )
            } else {
                !r && final(self)@ == old(self)@
            },
            final(q)@ == (if r {
                queued(
                    old(q)@,
                    BumpView { label: label@, tab: Some(id@), await_present: Some(true) },
                )
            } else {
                old(q)@
            }),
            r ==> final(q)@ == queued(old(q)@, session_bump(label@, id@)),
    {
        let ghost m0 = self@;
        match self.find_window(label) {
            None => false,
            Some(i) => {
                let ghost w0 = m0.windows[i as int];
                let r: bool = self.windows[i].registry.start_session(id);
                let ghost v = RegistryView {
                    outbox: w0.registry.outbox + start_cmds(w0.registry, id@),
                    ..w0.registry
                };
                assert(self@.windows =~= m0.windows.update(
                    i as int,
                    WindowStateView { registry: v, ..w0 },
                ));
                self.settle(i);
                assert(self@.windows =~= settled(m0, i as int, v).windows);
                if r {
                    bump_tab_await(q, label, id, true);
                }
                r
            },
        }
    }

    /// The chrome of a window reported the rectangle of a hole.
    pub fn set_hole_rect(&mut self, label: &str, pane: Option<usize>, rect: PixelRect)
        ensures
            final(self)@ == hole_framed(old(self)@, label@, pane, rect),
    {
        let ghost m0 = self@;
        let which: PaneIdx = match pane {
            Some(p) => PaneIdx::from_index(p),
            None => PaneIdx::Primary,
        };
        match self.find_window(label) {
            None => {
                self.set_detached_frame(label, which, rect);
            },
            Some(i) => {
                let ghost w0 = m0.windows[i as int];
                self.windows[i].registry.set_pane_frame(which, rect);
                let ghost v = framed(w0.registry, which, rect);
                assert(self@.windows =~= m0.windows.update(
                    i as int,
                    WindowStateView { registry: v, ..w0 },
                ));
                self.settle(i);
                assert(self@.windows =~= settled(m0, i as int, v).windows);
            },
        }
    }

    /// The chrome of a window listens now: what is known of its sessions is
    /// told again, and they are looked at anew.
    pub fn probe_now(&self, label: &str, q: &mut BumpQueue) -> (r: PresenceMap)
        ensures
            r@ == known_of(self@.presence, label@),
            final(q)@ == queued(
                old(q)@,
                BumpView { label: label@, tab: None, await_present: None },
            ),
            final(q)@ == queued(old(q)@, look_bump(label@)),
    {
        bump(q, label);
        self.presence_cache.snapshot(label)
    }
}

/// Whether the return of a popped-out tab may lead from `m` to `n`.
pub open spec fn tab_returns<F: Fn(&Ask) -> Outcome>(
    spawn: &F,
    m: ManagerView,
    label: Seq<char>,
    n: ManagerView,
) -> bool {
    if m.quitting || !is_out(m, label) {
        n == m
    } else {
        let origin = m.detached[detached_index(m, label)].origin_label;
        exists|mid: ManagerView|
            {
                &&& #[trigger] redocking(spawn, m, label, mid)
                &&& if is_live(mid, origin) {
                    refreshing(mid, window_index(mid, origin), n)
                } else {
                    n == mid
                }
            }
    }
}

/// Whether unloading tab `id` of the window labelled `label` may lead from `m`
/// to `n`, with the tab `r` shown in its place.
pub open spec fn tab_unloads<F: Fn(&Ask) -> Outcome>(
    spawn: &F,
    m: ManagerView,
    label: Seq<char>,
    id: Seq<char>,
    n: ManagerView,
    r: Option<Seq<char>>,
) -> bool {
    let i = window_index(m, label);
    if is_live(m, label) {
        exists|v: RegistryView|
            #[trigger] unloading(spawn, m.windows[i].registry, id, v, r) && n == settled(m, i, v)
    } else {
        n == m && r is None
    }
}

/// The command that ends the session of a tab, with what it says of the tab
/// filled in, and where it runs; none for a tab that has none.
pub open spec fn kill_job(m: ManagerView, label: Seq<char>, id: Seq<char>) -> Option<
    (Seq<char>, Seq<char>),
> {
    if is_live(m, label) {
        match kill_of(m.windows[window_index(m, label)].registry.tabs, id) {
            Some((dir, title, cmd)) => Some((substituted(cmd, dir, title), dir)),
            None => None,
        }
    } else {
        None
    }
}

/// What asks for a look at the window that a popped-out tab returns to, where
/// it returns.
pub open spec fn return_bump(m: ManagerView, label: Seq<char>) -> Option<BumpView> {
    if m.quitting || !is_out(m, label) {
        None
    } else {
        Some(
            BumpView {
                label: m.detached[detached_index(m, label)].origin_label,
                tab: None,
                await_present: None,
            },
        )
    }
}

/// What asks for a look at a window.
pub open spec fn look_bump(label: Seq<char>) -> BumpView {
    BumpView { label, tab: None, await_present: None }
}

/// What asks for a look at a window whose tab was just told to start.
pub open spec fn session_bump(label: Seq<char>, id: Seq<char>) -> BumpView {
    BumpView { label, tab: Some(id), await_present: Some(true) }
}

/// What raising the window of a popped-out tab comes to.
pub open spec fn raised(m: ManagerView, label: Seq<char>, id: Seq<char>) -> ManagerView {
    match out_of_tab(m.detached, label, id, 0) {
        Some(l) => with_effect(m, EffectView::FocusWindow(l)),
        None => m,
    }
}

/// What asking a popped-out tab back comes to.
pub open spec fn called_in(m: ManagerView, label: Seq<char>, id: Seq<char>) -> ManagerView {
    match out_of_tab(m.detached, label, id, 0) {
        Some(l) => with_effect(m, EffectView::CloseWindow(l)),
        None => m,
    }
}

/// What closing a hole of a popped-out window comes to.
pub open spec fn hole_closed(m: ManagerView, label: Seq<char>, pane: usize) -> ManagerView {
    if pane == 1 && is_out(m, label) && m.detached[detached_index(m, label)].secondary is Some {
        let d = m.detached[detached_index(m, label)];
        pane_closed_said(out_secondary_closed(m, label), label, d.origin_label, d.tab_id)
    } else {
        m
    }
}

/// What moving the keyboard to a pane of a tab comes to.
pub open spec fn pane_focused(
    m: ManagerView,
    label: Seq<char>,
    id: Seq<char>,
    pane: usize,
) -> ManagerView {
    if is_live(m, label) {
        let i = window_index(m, label);
        let which = if pane == 1 {
            PaneIdx::Secondary
        } else {
            PaneIdx::Primary
        };
        settled(m, i, focus_moved(m.windows[i].registry, id, which))
    } else {
        m
    }
}

/// Whether tab `id` of the window labelled `label` has a kill command.
pub open spec fn has_kill(m: ManagerView, label: Seq<char>, id: Seq<char>) -> bool {
    let v = m.windows[window_index(m, label)].registry;
    is_live(m, label) && known(v.tabs, id) && tab_at(v.tabs, id).primary.spec.kill is Some
}

} // verus!
