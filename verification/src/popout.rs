//! Tabs in windows of their own: popping them out, bringing them back, and
//! what becomes of a tab whose terminal ends.

use crate::lifecycle::reopening;
use crate::manager::{
    close_both, detached_index, detached_labels, detached_views, is_live, is_out, is_snapshot,
    lemma_rank, out_of_surface, settled, window_index, with_effect, DetachedSurface, DetachedView,
    Effect, EffectView, InitDto, InitDtoView, ManagerView, WindowManager, WindowStateView,
};
use crate::plan::{detach_token, detach_window_token};
use crate::presence::known_of;
use crate::registry::{
    activation, attachable, attached, can_ask, clearing, detachable, detached, focus_moved, known,
    lemma_position, lemma_same_ids, located, rank, secondary_closed, spawning, tab_at, unloading,
    Ask, Outcome, PaneIdx, RegistryView, SurfaceCmd, SurfaceCmdView,
};
use crate::surface::SurfaceError;
use crate::text::{copy_opt, opt_view, owned};
use vstd::prelude::*;

verus! {

/// The manager with the second pane of a popped-out tab closed.
pub open spec fn out_secondary_closed(m: ManagerView, label: Seq<char>) -> ManagerView {
    if is_out(m, label) {
        let k = detached_index(m, label);
        match m.detached[k].secondary {
            Some(s) => with_effect(
                ManagerView {
                    detached: m.detached.update(
                        k,
                        DetachedView { secondary: None, ..m.detached[k] },
                    ),
                    ..m
                },
                EffectView::Surface(SurfaceCmdView::Close(s)),
            ),
            None => m,
        }
    } else {
        m
    }
}

/// The manager after it was said that a popped-out tab lost its second pane.
pub open spec fn pane_closed_said(
    m: ManagerView,
    label: Seq<char>,
    origin: Seq<char>,
    tab: Seq<char>,
) -> ManagerView {
    with_effect(
        with_effect(m, EffectView::OneHole(label)),
        EffectView::PaneClosed { label: origin, id: tab },
    )
}

/// The window from `i` on in which the surface `h` is docked; the number of
/// windows where it is in none.
pub open spec fn docked_from(ws: Seq<WindowStateView>, h: usize, i: int) -> int
    decreases ws.len() - i,
{
    if i >= ws.len() {
        ws.len() as int
    } else if located(ws[i].registry.tabs, h) is Some {
        i
    } else {
        docked_from(ws, h, i + 1)
    }
}

/// The window in which the surface `h` is docked.
pub open spec fn docked(m: ManagerView, h: usize) -> int {
    docked_from(m.windows, h, 0)
}

/// Whether the end of the child of a docked pane may lead from `m` to `n`: a
/// second pane closes, a first pane unloads its tab.
pub open spec fn docked_exit<F: Fn(&Ask) -> Outcome>(
    spawn: &F,
    m: ManagerView,
    i: int,
    tab: Seq<char>,
    which: PaneIdx,
    n: ManagerView,
) -> bool {
    let w = m.windows[i];
    match which {
        PaneIdx::Secondary => n == with_effect(
            settled(m, i, secondary_closed(w.registry, tab)),
            EffectView::PaneClosed { label: w.label, id: tab },
        ),
        PaneIdx::Primary => exists|v: RegistryView, r: Option<Seq<char>>|
            {
                &&& #[trigger] unloading(spawn, w.registry, tab, v, r)
                &&& n == with_effect(
                    settled(m, i, v),
                    EffectView::TabExited { label: w.label, id: tab, new_active: r },
                )
            },
    }
}

/// The manager without a popped-out tab, whose terminals end.
pub open spec fn out_ended(m: ManagerView, k: int) -> ManagerView {
    close_both(
        ManagerView { detached: m.detached.remove(k), ..m },
        m.detached[k].surface,
        m.detached[k].secondary,
    )
}

/// The manager after the popped-out window of a tab closed and its window of
/// origin, with the registry `v`, was told.
pub open spec fn out_exit_said(
    m: ManagerView,
    d: DetachedView,
    i: int,
    v: RegistryView,
    r: Option<Seq<char>>,
    dto: InitDtoView,
) -> ManagerView {
    with_effect(
        with_effect(
            with_effect(settled(m, i, v), EffectView::CloseWindow(d.label)),
            EffectView::Refresh(dto),
        ),
        EffectView::TabExited { label: d.origin_label, id: d.tab_id, new_active: r },
    )
}

/// Whether the end of the child of a popped-out tab's first pane may lead from
/// `m` to `n`: the tab ends, and the window it came from is told.
pub open spec fn out_exit<F: Fn(&Ask) -> Outcome>(
    spawn: &F,
    m: ManagerView,
    k: int,
    n: ManagerView,
) -> bool {
    let d = m.detached[k];
    let ended = out_ended(m, k);
    let i = window_index(m, d.origin_label);
    if is_live(m, d.origin_label) {
        exists|v: RegistryView, r: Option<Seq<char>>, dto: InitDtoView|
            {
                &&& clearing(spawn, m.windows[i].registry, d.tab_id, v, r)
                &&& is_snapshot(
                    dto,
                    settled(ended, i, v).windows[i],
                    known_of(m.presence, m.windows[i].label),
                    m.last_good,
                    m.windows[i].spawn_error,
                )
                &&& n == #[trigger] out_exit_said(out_ended(m, k), m.detached[k], i, v, r, dto)
            }
    } else {
        n == with_effect(
            with_effect(ended, EffectView::CloseWindow(d.label)),
            EffectView::TabExited { label: d.origin_label, id: d.tab_id, new_active: None },
        )
    }
}

/// Whether the end of the child of surface `h` may lead from `m` to `n`. A
/// surface that is nowhere changes nothing.
pub open spec fn child_exits<F: Fn(&Ask) -> Outcome>(
    spawn: &F,
    m: ManagerView,
    h: usize,
    n: ManagerView,
) -> bool {
    let i = docked(m, h);
    if i < m.windows.len() {
        let at = located(m.windows[i].registry.tabs, h)->0;
        docked_exit(spawn, m, i, at.0, at.1, n)
    } else {
        match out_of_surface(m.detached, h, 0) {
            Some((label, which)) => {
                let k = detached_index(m, label);
                match which {
                    PaneIdx::Secondary => n == if m.detached[k].secondary is Some {
                        pane_closed_said(
                            out_secondary_closed(m, label),
                            label,
                            m.detached[k].origin_label,
                            m.detached[k].tab_id,
                        )
                    } else {
                        m
                    },
                    PaneIdx::Primary => out_exit(spawn, m, k, n),
                }
            },
            None => n == m,
        }
    }
}

/// The manager after the surface `h` got the keyboard.
pub open spec fn surface_focused(m: ManagerView, h: usize) -> ManagerView {
    let i = docked(m, h);
    if i < m.windows.len() {
        let w = m.windows[i];
        let at = located(w.registry.tabs, h)->0;
        if known(w.registry.tabs, at.0) && tab_at(w.registry.tabs, at.0).pane(at.1) is Some {
            with_effect(
                settled(m, i, focus_moved(w.registry, at.0, at.1)),
                EffectView::PaneFocused { label: w.label, id: at.0, pane: at.1.number() },
            )
        } else {
            m
        }
    } else {
        match out_of_surface(m.detached, h, 0) {
            Some((label, which)) => with_effect(
                m,
                EffectView::FocusHole { label, pane: which.number() },
            ),
            None => m,
        }
    }
}

/// The manager after the surfaces of a popped-out tab were moved back.
pub open spec fn moved_home(m: ManagerView, d: DetachedView) -> ManagerView {
    let one = with_effect(
        m,
        EffectView::Reparent { surface: d.surface, into: d.origin_label },
    );
    match d.secondary {
        Some(s) => with_effect(
            one,
            EffectView::Reparent { surface: s, into: d.origin_label },
        ),
        None => one,
    }
}

/// The tab to show once tab `id` is back: what is shown, or else the tab.
pub open spec fn to_show(v: RegistryView, id: Seq<char>) -> Seq<char> {
    match v.active {
        Some(a) => a,
        None => id,
    }
}

/// Whether showing tab `id` of window `i`, whose registry is `v` now, may lead
/// from `m` to `n`.
pub open spec fn showing<F: Fn(&Ask) -> Outcome>(
    spawn: &F,
    m: ManagerView,
    i: int,
    v: RegistryView,
    id: Seq<char>,
    n: ManagerView,
) -> bool {
    exists|w: RegistryView, r: Result<bool, SurfaceError>|
        #[trigger] activation(spawn, v, id, w, r) && n == settled(m, i, w)
}

/// Whether giving the surfaces back to window `i` may lead from `m` to `n`.
pub open spec fn taking_back<F: Fn(&Ask) -> Outcome>(
    spawn: &F,
    m: ManagerView,
    i: int,
    d: DetachedView,
    n: ManagerView,
) -> bool {
    let v = m.windows[i].registry;
    if attachable(v, d.tab_id, d.secondary) {
        let back = attached(v, d.tab_id, d.surface, d.secondary);
        showing(spawn, m, i, back, to_show(back, d.tab_id), n)
    } else {
        n == close_both(m, d.surface, d.secondary)
    }
}

/// Whether a popped-out tab's return to its window may lead from `m` to `n`.
/// Without that window its terminals end.
pub open spec fn homing<F: Fn(&Ask) -> Outcome>(
    spawn: &F,
    m: ManagerView,
    d: DetachedView,
    n: ManagerView,
) -> bool {
    let i = window_index(m, d.origin_label);
    if is_live(m, d.origin_label) {
        exists|v: RegistryView, r: Option<Seq<char>>|
            {
                &&& #[trigger] unloading(spawn, m.windows[i].registry, d.tab_id, v, r)
                &&& taking_back(spawn, moved_home(settled(m, i, v), d), i, d, n)
            }
    } else {
        n == close_both(m, d.surface, d.secondary)
    }
}

/// Whether bringing a tab back may lead from `m` to `n`: a window of origin
/// that was closed is reopened first. Nothing is brought back on the way out.
pub open spec fn redocking<F: Fn(&Ask) -> Outcome>(
    spawn: &F,
    m: ManagerView,
    label: Seq<char>,
    n: ManagerView,
) -> bool {
    if m.quitting || !is_out(m, label) {
        n == m
    } else {
        let k = detached_index(m, label);
        let d = m.detached[k];
        let without = ManagerView { detached: m.detached.remove(k), ..m };
        exists|mid: ManagerView|
            {
                &&& if is_live(m, d.origin_label) {
                    mid == without
                } else {
                    reopening(spawn, without, d.origin_label, mid)
                }
                &&& #[trigger] homing(spawn, mid, m.detached[detached_index(m, label)], n)
            }
    }
}

/// A tab on its way out: its surfaces, where they come from, and what the new
/// window shows.
#[derive(Debug, PartialEq)]
pub struct PopOut {
    pub origin_label: String,
    pub tab_id: String,
    pub surface: usize,
    /// The surface of the second pane; the new window has two holes where
    /// there is one.
    pub secondary: Option<usize>,
    pub title: String,
    pub colour: String,
    /// What the label of the new window is made of.
    pub token: String,
}

/// Whether popping tab `id` out of the window labelled `label` may lead from
/// `m` to `n` and give `r`. A tab without a terminal gets one first.
pub open spec fn popping_out<F: Fn(&Ask) -> Outcome>(
    spawn: &F,
    m: ManagerView,
    label: Seq<char>,
    id: Seq<char>,
    n: ManagerView,
    r: Result<PopOut, String>,
) -> bool {
    let i = window_index(m, label);
    if !is_live(m, label) {
        n == m && r is Err && r->Err_0@ == "window not found"@
    } else {
        exists|v: RegistryView, s: Result<(), SurfaceError>|
            {
                &&& #[trigger] spawning(spawn, m.windows[i].registry, id, v, s)
                &&& match s {
                    Err(e) => {
                        &&& n == settled(m, i, v)
                        &&& r is Err
                        &&& r->Err_0@ == "could not open the tab to pop it out: "@ + e.text()
                    },
                    Ok(_) => {
                        &&& n == settled(m, i, detached(v, id))
                        &&& match detachable(v, id) {
                            Some((p, q)) => {
                                &&& r is Ok
                                &&& r->Ok_0.origin_label@ == label
                                &&& r->Ok_0.tab_id@ == id
                                &&& r->Ok_0.surface == p
                                &&& r->Ok_0.secondary == q
                                &&& r->Ok_0.title@ == tab_at(v.tabs, id).title
                                &&& r->Ok_0.colour@ == m.windows[i].colour
                                &&& r->Ok_0.token@ == detach_token(label, id)
                            },
                            None => r is Err && r->Err_0@ == "tab is not available to pop out"@,
                        }
                    },
                }
            }
    }
}

/// The popped-out tabs with `d` among them: in the place of the one with its
/// label, or else after the others.
pub open spec fn put_detached(ds: Seq<DetachedView>, d: DetachedView) -> Seq<DetachedView> {
    let k = rank(detached_labels(ds), d.label);
    if k < ds.len() {
        ds.update(k, d)
    } else {
        ds.push(d)
    }
}

/// Whether keeping a popped-out tab may lead from `m` to `n`: its window of
/// origin, where it is live, gets a new snapshot.
pub open spec fn keeping(m: ManagerView, d: DetachedView, n: ManagerView) -> bool {
    let kept = ManagerView { detached: put_detached(m.detached, d), ..m };
    let i = window_index(m, d.origin_label);
    if is_live(m, d.origin_label) {
        exists|dto: InitDtoView|
            {
                &&& #[trigger] is_snapshot(
                    dto,
                    m.windows[i],
                    known_of(m.presence, m.windows[i].label),
                    m.last_good,
                    m.windows[i].spawn_error,
                )
                &&& n == with_effect(kept, EffectView::Refresh(dto))
            }
    } else {
        n == kept
    }
}

/// Whether giving up on popping a tab out may lead from `m` to `n`: its window
/// takes it back and shows what it showed.
pub open spec fn giving_up<F: Fn(&Ask) -> Outcome>(
    spawn: &F,
    m: ManagerView,
    d: DetachedView,
    n: ManagerView,
) -> bool {
    let i = window_index(m, d.origin_label);
    if !is_live(m, d.origin_label) || !attachable(
        m.windows[i].registry,
        d.tab_id,
        d.secondary,
    ) {
        n == close_both(m, d.surface, d.secondary)
    } else {
        let back = attached(m.windows[i].registry, d.tab_id, d.surface, d.secondary);
        match back.active {
            Some(a) => showing(spawn, m, i, back, a, n),
            None => n == settled(m, i, back),
        }
    }
}

/// Queueing what a replaced registry tells surfaces.
proof fn lemma_replaced(a: ManagerView, m: ManagerView, i: int, v: RegistryView)
    requires
        0 <= i < m.windows.len(),
        a == (ManagerView {
            windows: m.windows.update(i, WindowStateView { registry: v, ..m.windows[i] }),
            ..m
        }),
    ensures
        settled(a, i, v) == settled(m, i, v),
{
    assert(settled(a, i, v).windows =~= settled(m, i, v).windows);
}

/// A popped-out window that shows a surface is one of the popped-out windows.
pub proof fn lemma_out_is_out(ds: Seq<DetachedView>, h: usize, i: int)
    requires
        0 <= i,
    ensures
        out_of_surface(ds, h, i) is Some ==> rank(
            detached_labels(ds),
            (out_of_surface(ds, h, i)->0).0,
        ) < ds.len(),
    decreases ds.len() - i,
{
    if i < ds.len() {
        lemma_out_is_out(ds, h, i + 1);
        lemma_rank(detached_labels(ds), ds[i].label);
        assert(detached_labels(ds)[i] == ds[i].label);
    }
}

impl WindowManager {
    /// Close the second pane of a popped-out tab. Returns the window and the
    /// tab that it belonged to, where there was one.
    pub fn close_detached_secondary(&mut self, label: &str) -> (r: Option<(String, String)>)
        ensures
            final(self)@ == out_secondary_closed(old(self)@, label@),
            r is Some <==> is_out(old(self)@, label@) && old(self)@.detached[detached_index(
                old(self)@,
                label@,
            )].secondary is Some,
            r is Some ==> {
                let d = old(self)@.detached[detached_index(old(self)@, label@)];
                (r->0).0@ == d.origin_label && (r->0).1@ == d.tab_id
            },
    {
        let ghost m0 = self@;
        match self.find_detached(label) {
            None => None,
            Some(k) => {
                let secondary: Option<usize> = self.detached[k].secondary;
                match secondary {
                    None => None,
                    Some(s) => {
                        self.detached[k].secondary = None;
                        assert(self@.detached =~= m0.detached.update(
                            k as int,
                            DetachedView { secondary: None, ..m0.detached[k as int] },
                        ));
                        self.push_effect(Effect::Surface(SurfaceCmd::Close(s)));
                        assert(self@.detached[k as int] == self.detached@[k as int]@);
                        Some(
                            (self.detached[k].origin_label.clone(), self.detached[k].tab_id.clone()),
                        )
                    },
                }
            },
        }
    }

    /// Say that a popped-out tab lost its second pane: its window collapses to
    /// one hole, and the chrome of its window of origin is told.
    pub fn announce_detached_secondary_closed(
        &mut self,
        label: &str,
        origin_label: &str,
        tab_id: &str,
    )
        ensures
            final(self)@ == pane_closed_said(old(self)@, label@, origin_label@, tab_id@),
    {
        self.push_effect(Effect::OneHole(owned(label)));
        self.push_effect(
            Effect::PaneClosed { label: owned(origin_label), id: owned(tab_id) },
        );
    }

    /// Close the terminals of a popped-out tab.
    fn close_pair(&mut self, primary: usize, secondary: Option<usize>)
        ensures
            final(self)@ == close_both(old(self)@, primary, secondary),
    {
        self.push_effect(Effect::Surface(SurfaceCmd::Close(primary)));
        match secondary {
            Some(s) => {
                self.push_effect(Effect::Surface(SurfaceCmd::Close(s)));
            },
            None => {},
        }
    }

    /// The window in which the surface `h` is docked.
    fn find_docked(&self, h: usize) -> (r: Option<usize>)
        ensures
            match r {
                Some(i) => {
                    &&& i == docked(self@, h)
                    &&& i < self@.windows.len()
                    &&& self@.windows.len() == self.windows@.len()
                    &&& self@.windows[i as int] == self.windows@[i as int]@
                    &&& located(self@.windows[i as int].registry.tabs, h) is Some
                },
                None => docked(self@, h) >= self@.windows.len(),
            },
    {
        let ghost wv = self@.windows;
        let mut i: usize = 0;
        while i < self.windows.len()
            invariant
                i <= self.windows.len(),
                wv == self@.windows,
                docked(self@, h) == docked_from(wv, h, i as int),
            decreases self.windows.len() - i,
        {
            assert(wv[i as int] == self.windows@[i as int]@);
            if self.windows[i].registry.locate_surface(h).is_some() {
                return Some(i);
            }
            i = i + 1;
        }
        None
    }

    /// The child of surface `h` ended. A second pane closes; a first pane
    /// unloads its tab, which is as cold then as if it had been unloaded by
    /// hand. A popped-out tab ends together with its window.
    pub fn handle_child_exited<F: Fn(&Ask) -> Outcome>(
        &mut self,
        h: usize,
        spawn: &F,
    )
        requires
            can_ask(spawn),
        ensures
            child_exits(spawn, old(self)@, h, final(self)@),
    {
        let ghost m0 = self@;
        match self.find_docked(h) {
            Some(i) => {
                let ghost w0 = m0.windows[i as int];
                let label: String = self.windows[i].label.clone();
                match self.windows[i].registry.locate_surface(h) {
                    None => {},
                    Some((tab, which)) => match which {
                        PaneIdx::Secondary => {
                            let _ = self.windows[i].registry.close_secondary(tab.as_str());
                            let ghost v = secondary_closed(w0.registry, tab@);
                            assert(self@.windows =~= m0.windows.update(
                                i as int,
                                WindowStateView { registry: v, ..w0 },
                            ));
                            proof {
                                lemma_replaced(self@, m0, i as int, v);
                            }
                            self.settle(i);
                            self.push_effect(Effect::PaneClosed { label, id: tab });
                        },
                        PaneIdx::Primary => {
                            let new_active: Option<String> = self.windows[i].registry.unload(
                                tab.as_str(),
                                spawn,
                            );
                            let ghost v = self@.windows[i as int].registry;
                            assert(self@.windows[i as int] == self.windows@[i as int]@);
                            assert(self@.windows =~= m0.windows.update(
                                i as int,
                                WindowStateView { registry: v, ..w0 },
                            ));
                            proof {
                                lemma_replaced(self@, m0, i as int, v);
                            }
                            assert(unloading(
                                spawn,
                                w0.registry,
                                tab@,
                                v,
                                opt_view(new_active),
                            ));
                            self.settle(i);
                            self.push_effect(Effect::TabExited { label, id: tab, new_active });
                        },
                    },
                }
            },
            None => {
                match self.locate_detached_surface(h) {
                    None => {},
                    Some((label, which)) => {
                        proof {
                            lemma_out_is_out(m0.detached, h, 0);
                        }
                        match which {
                            PaneIdx::Secondary => {
                                match self.close_detached_secondary(label.as_str()) {
                                    Some((origin, tab)) => {
                                        self.announce_detached_secondary_closed(
                                            label.as_str(),
                                            origin.as_str(),
                                            tab.as_str(),
                                        );
                                    },
                                    None => {},
                                }
                            },
                            PaneIdx::Primary => {
                                self.end_detached(label.as_str(), spawn);
                            },
                        }
                    },
                }
            },
        }
    }

    /// The first pane of a popped-out tab ended: end the tab, close its window
    /// and tell the window it came from.
    fn end_detached<F: Fn(&Ask) -> Outcome>(&mut self, label: &str, spawn: &F)
        requires
            can_ask(spawn),
        ensures
            if is_out(old(self)@, label@) {
                out_exit(
                    spawn,
                    old(self)@,
                    detached_index(old(self)@, label@),
                    final(self)@,
                )
            } else {
                final(self)@ == old(self)@
            },
    {
        let ghost m0 = self@;
        match self.find_detached(label) {
            None => {},
            Some(k) => {
                let ghost dv = m0.detached[k as int];
                let ghost rest = self.detached@.remove(k as int);
                assert(detached_views(rest) =~= m0.detached.remove(k as int));
                let d: DetachedSurface = self.detached.remove(k);
                self.close_pair(d.surface, d.secondary);
                let ghost ended = out_ended(m0, k as int);
                assert(self@ == ended);
                match self.find_window(d.origin_label.as_str()) {
                    None => {
                        self.push_effect(Effect::CloseWindow(d.label));
                        self.push_effect(
                            Effect::TabExited {
                                label: d.origin_label,
                                id: d.tab_id,
                                new_active: None,
                            },
                        );
                    },
                    Some(i) => {
                        let ghost w0 = m0.windows[i as int];
                        let new_active: Option<String> = self.windows[i].registry.clear_detached(
                            d.tab_id.as_str(),
                            spawn,
                        );
                        let ghost v = self@.windows[i as int].registry;
                        assert(self@.windows[i as int] == self.windows@[i as int]@);
                        assert(self@.windows =~= ended.windows.update(
                            i as int,
                            WindowStateView { registry: v, ..w0 },
                        ));
                        proof {
                            lemma_replaced(self@, ended, i as int, v);
                        }
                        self.settle(i);
                        let ghost m2 = self@;
                        assert(m2.windows.len() == self.windows@.len());
                        assert(m2.windows[i as int] == self.windows@[i as int]@);
                        let dto: InitDto = self.snapshot(
                            i,
                            &self.last_good,
                            copy_opt(&self.windows[i].spawn_error),
                        );
                        let ghost dtov = dto@;
                        let ghost r = opt_view(new_active);
                        self.push_effect(Effect::CloseWindow(d.label));
                        self.push_effect(Effect::Refresh(dto));
                        self.push_effect(
                            Effect::TabExited { label: d.origin_label, id: d.tab_id, new_active },
                        );
                        assert(self@ == out_exit_said(ended, dv, i as int, v, r, dtov));
                    },
                }
            },
        }
    }

    /// The surface `h` got the keyboard: note the pane, and tell the chrome.
    pub fn handle_surface_focused(&mut self, h: usize)
        ensures
            final(self)@ == surface_focused(old(self)@, h),
    {
        let ghost m0 = self@;
        match self.find_docked(h) {
            Some(i) => {
                let ghost w0 = m0.windows[i as int];
                let label: String = self.windows[i].label.clone();
                match self.windows[i].registry.locate_surface(h) {
                    None => {},
                    Some((tab, which)) => {
                        let moved: bool = self.windows[i].registry.focus_pane(tab.as_str(), which);
                        let ghost v = focus_moved(w0.registry, tab@, which);
                        assert(self@.windows =~= m0.windows.update(
                            i as int,
                            WindowStateView { registry: v, ..w0 },
                        ));
                        if moved {
                            proof {
                                lemma_replaced(self@, m0, i as int, v);
                            }
                            self.settle(i);
                            self.push_effect(
                                Effect::PaneFocused { label, id: tab, pane: which.index() },
                            );
                        } else {
                            assert(v == w0.registry);
                            assert(self@.windows =~= m0.windows);
                        }
                    },
                }
            },
            None => {
                match self.locate_detached_surface(h) {
                    None => {},
                    Some((label, which)) => {
                        self.push_effect(Effect::FocusHole { label, pane: which.index() });
                    },
                }
            },
        }
    }

    /// Give the surfaces of a popped-out tab back to the window they came
    /// from.
    fn bring_home<F: Fn(&Ask) -> Outcome>(
        &mut self,
        d: &DetachedSurface,
        spawn: &F,
    )
        requires
            can_ask(spawn),
        ensures
            homing(spawn, old(self)@, d@, final(self)@),
    {
        let ghost m0 = self@;
        match self.find_window(d.origin_label.as_str()) {
            None => {
                self.close_pair(d.surface, d.secondary);
            },
            Some(i) => {
                let ghost w0 = m0.windows[i as int];
                let _r: Option<String> = self.windows[i].registry.unload(d.tab_id.as_str(), spawn);
                let ghost v = self@.windows[i as int].registry;
                assert(self@.windows[i as int] == self.windows@[i as int]@);
                assert(self@.windows =~= m0.windows.update(
                    i as int,
                    WindowStateView { registry: v, ..w0 },
                ));
                proof {
                    lemma_replaced(self@, m0, i as int, v);
                }
                assert(unloading(spawn, w0.registry, d@.tab_id, v, opt_view(_r)));
                self.settle(i);
                self.push_effect(
                    Effect::Reparent { surface: d.surface, into: d.origin_label.clone() },
                );
                match d.secondary {
                    Some(s) => {
                        self.push_effect(
                            Effect::Reparent { surface: s, into: d.origin_label.clone() },
                        );
                    },
                    None => {},
                }
                let ghost m1 = self@;
                assert(m1 == moved_home(settled(m0, i as int, v), d@));
                let ghost v1 = m1.windows[i as int].registry;
                assert(m1.windows.len() == self.windows@.len());
                assert(m1.windows[i as int] == self.windows@[i as int]@);
                match self.windows[i].registry.attach(d.tab_id.as_str(), d.surface, d.secondary) {
                    Ok(_) => {
                        let ghost back = attached(v1, d@.tab_id, d.surface, d.secondary);
                        assert(self.windows@[i as int].registry@ == back);
                        let show: String = match self.windows[i].registry.active_tab() {
                            Some(a) => a,
                            None => d.tab_id.clone(),
                        };
                        let r: Result<bool, SurfaceError> = self.windows[i].registry.activate(
                            show.as_str(),
                            spawn,
                        );
                        let ghost w = self@.windows[i as int].registry;
                        assert(self@.windows[i as int] == self.windows@[i as int]@);
                        assert(self@.windows =~= m1.windows.update(
                            i as int,
                            WindowStateView { registry: w, ..m1.windows[i as int] },
                        ));
                        proof {
                            lemma_replaced(self@, m1, i as int, w);
                        }
                        assert(activation(
                            spawn,
                            attached(v1, d@.tab_id, d@.surface, d@.secondary),
                            to_show(back, d@.tab_id),
                            w,
                            r,
                        ));
                        self.settle(i);
                    },
                    Err(_) => {
                        assert(self@.windows =~= m1.windows);
                        self.close_pair(d.surface, d.secondary);
                    },
                }
                assert(taking_back(spawn, m1, i as int, d@, self@));
            },
        }
    }

    /// A popped-out window closed: bring its tab back to the window it came
    /// from, which is reopened first where it was closed. Returns the label of
    /// that window; nothing where there is no such popped-out window, or where
    /// the application is on its way out.
    pub fn redock<F: Fn(&Ask) -> Outcome>(
        &mut self,
        label: &str,
        spawn: &F,
    ) -> (r: Option<String>)
        requires
            can_ask(spawn),
        ensures
            redocking(spawn, old(self)@, label@, final(self)@),
            opt_view(r) == (if old(self)@.quitting || !is_out(old(self)@, label@) {
                None
            } else {
                Some(old(self)@.detached[detached_index(old(self)@, label@)].origin_label)
            }),
    {
        let ghost m0 = self@;
        if self.quitting {
            return None;
        }
        match self.find_detached(label) {
            None => None,
            Some(k) => {
                let ghost rest = self.detached@.remove(k as int);
                assert(detached_views(rest) =~= m0.detached.remove(k as int));
                let d: DetachedSurface = self.detached.remove(k);
                assert(d@ == m0.detached[k as int]);
                let ghost m1 = self@;
                assert(m1 == (ManagerView { detached: m0.detached.remove(k as int), ..m0 }));
                if self.find_window(d.origin_label.as_str()).is_none() {
                    let _ = self.reopen_window(d.origin_label.as_str(), spawn);
                }
                let ghost mid = self@;
                self.bring_home(&d, spawn);
                assert(homing(
                    spawn,
                    mid,
                    m0.detached[detached_index(m0, label@)],
                    self@,
                ));
                Some(d.origin_label)
            },
        }
    }

    /// Take tab `id` out of the window labelled `label`: its surfaces leave
    /// placeholders behind. A tab without a terminal gets one first.
    pub fn pop_out<F: Fn(&Ask) -> Outcome>(
        &mut self,
        label: &str,
        id: &str,
        spawn: &F,
    ) -> (r: Result<PopOut, String>)
        requires
            can_ask(spawn),
        ensures
            popping_out(spawn, old(self)@, label@, id@, final(self)@, r),
    {
        let ghost m0 = self@;
        match self.find_window(label) {
            None => Err(owned("window not found")),
            Some(i) => {
                let ghost w0 = m0.windows[i as int];
                let s: Result<(), SurfaceError> = self.windows[i].registry.ensure_spawned_by_id(
                    id,
                    spawn,
                );
                let ghost v = self@.windows[i as int].registry;
                assert(self@.windows[i as int] == self.windows@[i as int]@);
                assert(spawning(spawn, w0.registry, id@, v, s));
                match s {
                    Err(e) => {
                        assert(self@.windows =~= m0.windows.update(
                            i as int,
                            WindowStateView { registry: v, ..w0 },
                        ));
                        proof {
                            lemma_replaced(self@, m0, i as int, v);
                        }
                        self.settle(i);
                        let mut m: String = owned("could not open the tab to pop it out: ");
                        let why: String = e.message();
                        m.append(why.as_str());
                        Err(m)
                    },
                    Ok(_) => {
                        let out: Option<(usize, Option<usize>)> = self.windows[i].registry.detach(
                            id,
                        );
                        let ghost v2 = detached(v, id@);
                        assert(self@.windows =~= m0.windows.update(
                            i as int,
                            WindowStateView { registry: v2, ..w0 },
                        ));
                        proof {
                            lemma_replaced(self@, m0, i as int, v2);
                        }
                        assert(self@.windows[i as int] == self.windows@[i as int]@);
                        let title: Option<String> = self.windows[i].registry.tab_title(id);
                        let colour: String = self.windows[i].colour.clone();
                        self.settle(i);
                        match out {
                            None => Err(owned("tab is not available to pop out")),
                            Some((surface, secondary)) => {
                                proof {
                                    lemma_detached_title(v, id@);
                                }
                                let title: String = match title {
                                    Some(t) => t,
                                    None => owned(id),
                                };
                                let r: Result<PopOut, String> = Ok(
                                    PopOut {
                                        origin_label: owned(label),
                                        tab_id: owned(id),
                                        surface,
                                        secondary,
                                        title,
                                        colour,
                                        token: detach_window_token(label, id),
                                    },
                                );
                                r
                            },
                        }
                    },
                }
            },
        }
    }

    /// The tab is in its own window, labelled `label`: keep it, and give its
    /// window of origin a new snapshot.
    pub fn keep_popped_out(&mut self, p: PopOut, label: String)
        ensures
            keeping(old(self)@, detached_as(p, label@), final(self)@),
    {
        let ghost m0 = self@;
        let ghost dv = detached_as(p, label@);
        let d = DetachedSurface {
            label,
            surface: p.surface,
            secondary: p.secondary,
            origin_label: p.origin_label,
            tab_id: p.tab_id,
        };
        assert(d@ == dv);
        let origin: String = d.origin_label.clone();
        match self.find_detached(d.label.as_str()) {
            Some(k) => {
                self.detached.set(k, d);
                assert(self@.detached =~= m0.detached.update(k as int, dv));
            },
            None => {
                proof {
                    lemma_rank(detached_labels(m0.detached), dv.label);
                }
                self.detached.push(d);
                assert(self@.detached =~= m0.detached.push(dv));
            },
        }
        let ghost m1 = self@;
        assert(m1 == (ManagerView { detached: put_detached(m0.detached, dv), ..m0 }));
        match self.find_window(origin.as_str()) {
            None => {},
            Some(i) => {
                let dto: InitDto = self.snapshot(
                    i,
                    &self.last_good,
                    copy_opt(&self.windows[i].spawn_error),
                );
                assert(is_snapshot(
                    dto@,
                    m0.windows[i as int],
                    known_of(m0.presence, m0.windows[i as int].label),
                    m0.last_good,
                    m0.windows[i as int].spawn_error,
                ));
                self.push_effect(Effect::Refresh(dto));
            },
        }
    }

    /// The tab could not be moved to a window of its own, for the reason
    /// `why`: its window takes it back. Returns what to say of it.
    pub fn give_up_pop_out<F: Fn(&Ask) -> Outcome>(
        &mut self,
        p: PopOut,
        why: &str,
        spawn: &F,
    ) -> (r: String)
        requires
            can_ask(spawn),
        ensures
            giving_up(spawn, old(self)@, detached_as(p, Seq::empty()), final(self)@),
            r@ == "couldn't pop out tab: "@ + why@,
    {
        let ghost m0 = self@;
        let mut said: String = owned("couldn't pop out tab: ");
        said.append(why);
        match self.find_window(p.origin_label.as_str()) {
            None => {
                self.close_pair(p.surface, p.secondary);
            },
            Some(i) => {
                let ghost w0 = m0.windows[i as int];
                match self.windows[i].registry.attach(p.tab_id.as_str(), p.surface, p.secondary) {
                    Err(_) => {
                        assert(self@.windows =~= m0.windows);
                        self.close_pair(p.surface, p.secondary);
                    },
                    Ok(_) => {
                        let ghost back = attached(w0.registry, p.tab_id@, p.surface, p.secondary);
                        assert(self.windows@[i as int].registry@ == back);
                        match self.windows[i].registry.active_tab() {
                            Some(a) => {
                                let r: Result<bool, SurfaceError> = self.windows[i].registry.activate(
                                    a.as_str(),
                                    spawn,
                                );
                                let ghost w = self@.windows[i as int].registry;
                                assert(self@.windows[i as int] == self.windows@[i as int]@);
                                assert(self@.windows =~= m0.windows.update(
                                    i as int,
                                    WindowStateView { registry: w, ..w0 },
                                ));
                                proof {
                                    lemma_replaced(self@, m0, i as int, w);
                                }
                                assert(activation(spawn, back, a@, w, r));
                                self.settle(i);
                                assert(self@ == settled(m0, i as int, w));
                                assert(showing(spawn, m0, i as int, back, a@, self@));
                            },
                            None => {
                                assert(self@.windows =~= m0.windows.update(
                                    i as int,
                                    WindowStateView { registry: back, ..w0 },
                                ));
                                proof {
                                    lemma_replaced(self@, m0, i as int, back);
                                }
                                self.settle(i);
                            },
                        }
                    },
                }
            },
        }
        said
    }
}

/// A tab on its way out, in the window labelled `label`.
pub open spec fn detached_as(p: PopOut, label: Seq<char>) -> DetachedView {
    DetachedView {
        label,
        surface: p.surface,
        secondary: p.secondary,
        origin_label: p.origin_label@,
        tab_id: p.tab_id@,
    }
}

/// A popped-out tab keeps its title in the sidebar.
proof fn lemma_detached_title(v: RegistryView, id: Seq<char>)
    requires
        detachable(v, id) is Some,
    ensures
        known(detached(v, id).tabs, id),
        tab_at(detached(v, id).tabs, id).title == tab_at(v.tabs, id).title,
{
    lemma_position(v.tabs, id);
    let after = detached(v, id).tabs;
    assert forall|k: int| 0 <= k < v.tabs.len() implies (#[trigger] after[k]).id
        == v.tabs[k].id by {}
    lemma_same_ids(v.tabs, after, id, 0);
}

} // verus!
