//! What comes of what the user does to a tab.

use crate::commands::{
    called_in, hole_closed, kill_job, layout_at, look_bump, pane_focused, raised, refreshing,
    return_bump, session_bump, spawn_failed, tab_activates, tab_returns, tab_splits, tab_unloads,
    ActivateResult,
};
use crate::manager::{
    detached_index, is_live, is_out, is_snapshot, labels_of, lemma_rank, out_of_tab, settled,
    window_index, DetachedView, EffectView, InitDtoView, ManagerView,
};
use crate::manager_laws::{
    holds_surfaces, in_order, law_a_returning_tab_keeps_its_terminals,
    law_activating_ends_no_terminal, law_reopening_keeps_order, lemma_unloaded, tab_ids,
};
use crate::pane_laws::runs;
use crate::plan::detach_token;
use crate::popout::{
    detached_as, docked_exit, giving_up, homing, keeping, moved_home, popping_out, redocking,
    taking_back, PopOut,
};
use crate::presence::known_of;
use crate::probe_laws::{law_commands_are_filled_in, unbraced};
use crate::registry::{
    activate_report, activates, activation, attachable, attached, detachable, detached, known,
    leaned, leans, lemma_position, live_at, popped_out, position, spawning, split_tab,
    surfaces_closed, tab_at, unload_leans, unloading, Ask, Outcome, PaneIdx, RegistryView,
    SurfaceCmdView, TabEntryView, TabSlot,
};

use crate::surface::SurfaceError;
use crate::window_laws::law_homeless_terminals_end;
use crate::lifecycle::{load_noted, reopenable, reopening};
use vstd::prelude::*;

verus! {

proof fn lemma_found(tabs: Seq<TabEntryView>, k: int)
    requires
        0 <= k < tabs.len(),
        tab_ids(tabs).no_duplicates(),
    ensures
        known(tabs, tabs[k].id),
        position(tabs, tabs[k].id) == k,
        tab_at(tabs, tabs[k].id) == tabs[k],
{
    lemma_position(tabs, tabs[k].id);
    assert(tab_ids(tabs)[k] == tabs[k].id);
    assert(tab_ids(tabs)[position(tabs, tabs[k].id)] == tabs[k].id);
}

proof fn lemma_window_found(m: ManagerView, i: int)
    requires
        in_order(m),
        0 <= i < m.windows.len(),
    ensures
        is_live(m, m.windows[i].label),
        window_index(m, m.windows[i].label) == i,
{
    let ls = labels_of(m.windows);
    lemma_rank(ls, m.windows[i].label);
    assert(ls[i] == m.windows[i].label);
}

/// The session of a tab is ended by the tab's own kill command, with the tab's
/// own directory and title filled in, and in that directory. A tab without a
/// kill command has none.
pub proof fn law_a_session_is_ended_by_its_own_command(
    m: ManagerView,
    i: int,
    k: int,
    a: Seq<char>,
    b: Seq<char>,
    c: Seq<char>,
)
    requires
        in_order(m),
        0 <= i < m.windows.len(),
        0 <= k < m.windows[i].registry.tabs.len(),
        tab_ids(m.windows[i].registry.tabs).no_duplicates(),
        unbraced(a),
        unbraced(b),
        unbraced(c),
        unbraced(m.windows[i].registry.tabs[k].primary.spec.dir),
    ensures
        ({
            let t = m.windows[i].registry.tabs[k];
            let job = kill_job(m, m.windows[i].label, t.id);
            &&& job is Some <==> t.primary.spec.kill is Some
            &&& job matches Some(j) ==> j.1 == t.primary.spec.dir
            &&& t.primary.spec.kill == Some(a + ("{dir}"@ + (b + ("{title}"@ + c)))) ==> job == Some(
                (a + t.primary.spec.dir + b + t.title + c, t.primary.spec.dir),
            )
            &&& t.primary.spec.kill == Some(a + ("{title}"@ + (b + ("{dir}"@ + c)))) ==> job == Some(
                (a + t.title + b + t.primary.spec.dir + c, t.primary.spec.dir),
            )
        }),
{
    let tabs = m.windows[i].registry.tabs;
    lemma_window_found(m, i);
    lemma_found(tabs, k);
    law_commands_are_filled_in(a, b, c, tabs[k].primary.spec.dir, tabs[k].title);
}

/// What a page is told of a tab that it activates: whether a terminal covers
/// the hole, whether the tab is split, and which pane has the keyboard. Where
/// no terminal could be had, that is said to the window.
pub proof fn law_activating_tells_the_page<F: Fn(&Ask) -> Outcome>(
    spawn: &F,
    m: ManagerView,
    label: Seq<char>,
    id: Seq<char>,
    n: ManagerView,
    r: ActivateResult,
    fresh: bool,
)
    requires
        tab_activates(spawn, m, label, id, n, r, fresh),
        is_live(m, label),
        known(m.windows[window_index(m, label)].registry.tabs, id),
    ensures
        ({
            let i = window_index(m, label);
            let t = tab_at(n.windows[i].registry.tabs, id);
            &&& n.windows[i].registry.active == Some(id)
            &&& r.split <==> t.secondary is Some
            &&& t.secondary is Some ==> r.focused == (if t.focused is Secondary {
                1usize
            } else {
                0usize
            })
            &&& t.secondary is None ==> r.focused == 0
            &&& !r.live ==> exists|k: int|
                0 <= k < n.outbox.len() && (#[trigger] n.outbox[k]) is Error
                    && n.outbox[k]->Error_window == Some(label)
            &&& fresh ==> r.live
            &&& fresh <==> {
                &&& tab_at(m.windows[i].registry.tabs, id).primary.slot is Cold
                &&& t.primary.slot is Spawned
            }
        }),
{
    let i = window_index(m, label);
    lemma_rank(labels_of(m.windows), label);
    let v0 = m.windows[i].registry;
    let (v, a) = choose|v: RegistryView, a: Result<bool, SurfaceError>|
        {
            &&& #[trigger] activation(spawn, m.windows[i].registry, id, v, a)
            &&& r == (ActivateResult {
                live: a is Ok,
                split: layout_at(v, id).0,
                focused: layout_at(v, id).1,
            })
            &&& fresh == (a == Ok::<bool, SurfaceError>(true))
            &&& if r.split {
                refreshing(spawn_failed(settled(m, i, v), label, a), i, n)
            } else {
                n == spawn_failed(settled(m, i, v), label, a)
            }
        };
    law_activating_ends_no_terminal(spawn, v0, id, v, a);
    lemma_position(v0.tabs, id);
    lemma_position(v.tabs, id);
    assert(v.tabs[position(v0.tabs, id)].id == id);
    assert(known(v.tabs, id));
    let mid = settled(m, i, v);
    let said = spawn_failed(mid, label, a);
    assert(said.windows[i].registry.tabs == v.tabs);
    assert(n.windows[i].registry.tabs == v.tabs);
    if !r.live {
        let k = mid.outbox.len() as int;
        assert(said.outbox[k] is Error);
        assert(n.outbox[k] == said.outbox[k]);
    }
}

/// Splitting a tab gives it a second pane, whatever comes of the terminal for
/// it, and the window is told afresh what it shows.
pub proof fn law_a_split_tab_has_two_panes<F: Fn(&Ask) -> Outcome>(
    spawn: &F,
    m: ManagerView,
    label: Seq<char>,
    id: Seq<char>,
    n: ManagerView,
    r: Result<(), String>,
)
    requires
        tab_splits(spawn, m, label, id, n, r),
        is_live(m, label),
        known(m.windows[window_index(m, label)].registry.tabs, id),
    ensures
        tab_at(n.windows[window_index(m, label)].registry.tabs, id).secondary is Some,
        n.windows[window_index(m, label)].registry.active == Some(id),
        n.outbox.last() is Refresh,
        n.outbox.last()->Refresh_0.label == m.windows[window_index(m, label)].label,
{
    let i = window_index(m, label);
    lemma_rank(labels_of(m.windows), label);
    let v0 = m.windows[i].registry;
    let two = split_tab(v0, id);
    let (v, a) = choose|v: RegistryView, a: Result<bool, SurfaceError>|
        {
            &&& #[trigger] activation(spawn, split_tab(m.windows[i].registry, id), id, v, a)
            &&& match a {
                Ok(_) => r is Ok,
                Err(e) => r is Err && r->Err_0@ == "could not open the second pane: "@ + e.text(),
            }
            &&& refreshing(settled(m, i, v), i, n)
        };
    law_activating_ends_no_terminal(spawn, two, id, v, a);
    lemma_position(v0.tabs, id);
    lemma_position(two.tabs, id);
    lemma_position(v.tabs, id);
    let p = position(v0.tabs, id);
    assert(forall|k: int| 0 <= k < two.tabs.len() ==> (#[trigger] two.tabs[k]).id == v0.tabs[k].id);
    assert(two.tabs[p].id == id);
    let q = position(two.tabs, id);
    if q < p {
        assert(two.tabs[q].id == v0.tabs[q].id);
    }
    assert(q == p);
    assert(two.tabs[p].secondary is Some);
    assert(v.tabs[p].id == two.tabs[p].id);
    let s = position(v.tabs, id);
    if s < p {
        assert(v.tabs[s].id == two.tabs[s].id);
    }
    assert(s == p);
    let mid = settled(m, i, v);
    assert(mid.windows[i].registry.tabs == v.tabs);
    let d = choose|d: InitDtoView|
        {
            &&& #[trigger] is_snapshot(
                d,
                mid.windows[i],
                known_of(mid.presence, mid.windows[i].label),
                mid.last_good,
                mid.windows[i].spawn_error,
            )
            &&& n == crate::manager::with_effect(mid, EffectView::Refresh(d))
        };
    assert(n.outbox.last() == EffectView::Refresh(d));
}

/// A tab that is unloaded has no terminal in its window any more, every one it
/// had ends, and what is shown next is what the page is told.
pub proof fn law_an_unloaded_tab_is_cold<F: Fn(&Ask) -> Outcome>(
    spawn: &F,
    m: ManagerView,
    label: Seq<char>,
    id: Seq<char>,
    n: ManagerView,
    r: Option<Seq<char>>,
    h: usize,
)
    requires
        tab_unloads(spawn, m, label, id, n, r),
        is_live(m, label),
        known(m.windows[window_index(m, label)].registry.tabs, id),
        tab_ids(m.windows[window_index(m, label)].registry.tabs).no_duplicates(),
    ensures
        ({
            let i = window_index(m, label);
            let was = m.windows[i].registry;
            let is = n.windows[i].registry;
            &&& known(is.tabs, id) && !runs(tab_at(is.tabs, id), h)
            &&& runs(tab_at(was.tabs, id), h) ==> n.outbox.contains(
                EffectView::Surface(SurfaceCmdView::Close(h)),
            )
            &&& r is Some ==> is.active == r && r != Some(id)
            &&& r is None && was.active != Some(id) ==> is.active == was.active
        }),
{
    let i = window_index(m, label);
    lemma_rank(labels_of(m.windows), label);
    let v0 = m.windows[i].registry;
    let v = choose|v: RegistryView|
        #[trigger] unloading(spawn, m.windows[i].registry, id, v, r) && n == settled(m, i, v);
    lemma_unloaded(spawn, v0, id, v, r);
    assert(n.windows[i].registry.tabs == v.tabs);
    let closed = surfaces_closed(v0, id);
    let at = position(v0.tabs, id);
    lemma_position(v0.tabs, id);
    if unload_leans(v0, id) {
        let (p, s) = choose|p: Outcome, s: Outcome|
            leans(spawn, closed, at, p, s) && v == #[trigger] leaned(closed, at, p, s);
        if r is Some {
            crate::registry_laws::law_lean_finds_a_live_tab(
                crate::registry::liveness(closed.tabs),
                at,
            );
            let x = r->0;
            let k = crate::registry::live_neighbour(crate::registry::liveness(closed.tabs), at)->0;
            lemma_position(closed.tabs, x);
            assert(closed.tabs[k].id == x);
            assert(known(closed.tabs, x));
            assert(closed.tabs[k].id == v0.tabs[k].id);
            assert(tab_ids(v0.tabs)[k] == v0.tabs[k].id);
            assert(tab_ids(v0.tabs)[at] == id);
        }
    }
    if runs(tab_at(v0.tabs, id), h) {
        let t = tab_at(v0.tabs, id);
        let c = crate::registry::close_entry_cmds(t);
        let a = crate::registry::close_cmds(t.primary.slot);
        if t.primary.slot == TabSlot::Spawned(h) {
            assert(a[0] == SurfaceCmdView::Close(h));
            assert(c[0] == SurfaceCmdView::Close(h));
        } else {
            let b = crate::registry::close_cmds(t.secondary->0.slot);
            assert(b[0] == SurfaceCmdView::Close(h));
            assert(c[a.len() as int] == SurfaceCmdView::Close(h));
        }
        let k = if t.primary.slot == TabSlot::Spawned(h) {
            v0.outbox.len() as int
        } else {
            (v0.outbox.len() + a.len()) as int
        };
        assert(closed.outbox[k] == SurfaceCmdView::Close(h));
        assert(v.outbox[k] == SurfaceCmdView::Close(h));
        assert(n.outbox[m.outbox.len() + k] == EffectView::Surface(SurfaceCmdView::Close(h)));
    }
}

/// When the child of a first pane ends its tab is said to have ended, and with
/// it what is shown next; the end of a second pane is said of the pane alone.
pub proof fn law_an_exit_is_said_of_its_tab<F: Fn(&Ask) -> Outcome>(
    spawn: &F,
    m: ManagerView,
    i: int,
    tab: Seq<char>,
    which: PaneIdx,
    n: ManagerView,
)
    requires
        docked_exit(spawn, m, i, tab, which, n),
        0 <= i < m.windows.len(),
        known(m.windows[i].registry.tabs, tab),
        tab_ids(m.windows[i].registry.tabs).no_duplicates(),
    ensures
        which is Secondary ==> n.outbox.last() == (EffectView::PaneClosed {
            label: m.windows[i].label,
            id: tab,
        }),
        which is Primary ==> {
            &&& n.outbox.last() is TabExited
            &&& n.outbox.last()->TabExited_label == m.windows[i].label
            &&& n.outbox.last()->TabExited_id == tab
            &&& m.windows[i].registry.active == Some(tab) && tab_at(
                m.windows[i].registry.tabs,
                tab,
            ).is_live() ==> n.outbox.last()->TabExited_new_active == n.windows[i].registry.active
            &&& m.windows[i].registry.active != Some(tab)
                ==> n.outbox.last()->TabExited_new_active is None
                && n.windows[i].registry.active == m.windows[i].registry.active
            &&& forall|h: usize| !runs(tab_at(n.windows[i].registry.tabs, tab), h)
        },
        n.detached == m.detached,
        n.windows.len() == m.windows.len(),
        forall|j: int| 0 <= j < m.windows.len() && j != i ==> #[trigger] n.windows[j] == m.windows[j],
{
    if which is Primary {
        let w = m.windows[i];
        let (v, r) = choose|v: RegistryView, r: Option<Seq<char>>|
            {
                &&& #[trigger] unloading(spawn, w.registry, tab, v, r)
                &&& n == crate::manager::with_effect(
                    settled(m, i, v),
                    EffectView::TabExited { label: w.label, id: tab, new_active: r },
                )
            };
        lemma_unloaded(spawn, w.registry, tab, v, r);
        assert(n.windows[i].registry.tabs == v.tabs);
        if unload_leans(w.registry, tab) {
            let closed = surfaces_closed(w.registry, tab);
            let at = position(w.registry.tabs, tab);
            let (p, s) = choose|p: Outcome, s: Outcome|
                leans(spawn, closed, at, p, s) && v == #[trigger] leaned(closed, at, p, s);
            lemma_position(w.registry.tabs, tab);
            if r is Some {
                crate::registry_laws::law_lean_finds_a_live_tab(
                    crate::registry::liveness(closed.tabs),
                    at,
                );
                let k = crate::registry::live_neighbour(
                    crate::registry::liveness(closed.tabs),
                    at,
                )->0;
                lemma_position(closed.tabs, r->0);
                assert(closed.tabs[k].id == r->0);
                assert(known(closed.tabs, r->0));
            }
        }
    }
}

/// A tab that is popped out hands over the terminals that it has, the first as
/// the first and the second as the second, and has none in its window from
/// then on. The new window is told where the tab came from, what it is called
/// and in which colour.
pub proof fn law_a_pop_out_is_of_its_tab<F: Fn(&Ask) -> Outcome>(
    spawn: &F,
    m: ManagerView,
    label: Seq<char>,
    id: Seq<char>,
    n: ManagerView,
    r: Result<PopOut, String>,
)
    requires
        popping_out(spawn, m, label, id, n, r),
        is_live(m, label),
        r is Ok,
    ensures
        ({
            let i = window_index(m, label);
            let p = r->Ok_0;
            let was = tab_at(m.windows[i].registry.tabs, id);
            &&& p.origin_label@ == label
            &&& p.tab_id@ == id
            &&& p.title@ == was.title
            &&& p.colour@ == m.windows[i].colour
            &&& p.token@ == detach_token(label, id)
            &&& was.primary.slot is Spawned ==> was.primary.slot == TabSlot::Spawned(p.surface)
            &&& was.slot(PaneIdx::Secondary) matches Some(TabSlot::Spawned(s)) ==> p.secondary
                == Some(s)
            &&& popped_out(n.windows[i].registry.tabs, id)
            &&& n.detached == m.detached
        }),
{
    let i = window_index(m, label);
    lemma_rank(labels_of(m.windows), label);
    let v0 = m.windows[i].registry;
    let (v, s) = choose|v: RegistryView, s: Result<(), SurfaceError>|
        {
            &&& #[trigger] spawning(spawn, m.windows[i].registry, id, v, s)
            &&& match s {
                Err(e) => {
                    &&& n == settled(m, i, v)
                    &&& r is Err
                    &&& r->Err_0@ == "could not open the tab to pop it out: "@ + e.text()
                },
                Ok(_) => {
                    &&& n == settled(m, i, detached(v, id))
                    &&& match detachable(v, id) {
                        Some((p, q)) => {
                            &&& r is Ok
                            &&& r->Ok_0.origin_label@ == label
                            &&& r->Ok_0.tab_id@ == id
                            &&& r->Ok_0.surface == p
                            &&& r->Ok_0.secondary == q
                            &&& r->Ok_0.title@ == tab_at(v.tabs, id).title
                            &&& r->Ok_0.colour@ == m.windows[i].colour
                            &&& r->Ok_0.token@ == detach_token(label, id)
                        },
                        None => r is Err && r->Err_0@ == "tab is not available to pop out"@,
                    }
                },
            }
        };
    let (p, q) = choose|p: Outcome, q: Outcome|
        {
            &&& #[trigger] activates(spawn, v0, id, p, q)
            &&& v == (if known(v0.tabs, id) {
                live_at(v0, position(v0.tabs, id), p, q)
            } else {
                v0
            })
            &&& s == match activate_report(v0, id, p) {
                Ok(_) => Ok::<(), SurfaceError>(()),
                Err(e) => Err(e),
            }
        };
    lemma_position(v0.tabs, id);
    lemma_position(v.tabs, id);
    assert(known(v.tabs, id));
    let at = position(v0.tabs, id);
    if known(v0.tabs, id) {
        crate::pane_laws::law_terminals_go_where_they_lack(v0, at, p, q);
        assert(forall|k: int| 0 <= k < v.tabs.len() ==> (#[trigger] v.tabs[k]).id == v0.tabs[k].id)
            by {
            assert forall|k: int| 0 <= k < v.tabs.len() implies (#[trigger] v.tabs[k]).id
                == v0.tabs[k].id by {
                if k != at {
                    assert(v.tabs[k] == v0.tabs[k]);
                }
            }
        }
    }
    let x = position(v.tabs, id);
    assert(v.tabs[x].id == v0.tabs[x].id);
    assert(x == at);
    let out = detached(v, id);
    assert(out.tabs[x].id == id && out.tabs[x].primary.slot is Detached);
    assert(popped_out(out.tabs, id));
    assert(n.windows[i].registry.tabs == out.tabs);
}

/// A popped-out window keeps what it was told of its tab.
pub proof fn law_a_pop_out_is_kept_as_told(p: PopOut, label: Seq<char>)
    ensures
        detached_as(p, label).label == label,
        detached_as(p, label).surface == p.surface,
        detached_as(p, label).secondary == p.secondary,
        detached_as(p, label).origin_label == p.origin_label@,
        detached_as(p, label).tab_id == p.tab_id@,
{
}

/// A pop-out that is given up puts its terminals back into the tab they came
/// from, where that can take them; where it cannot, they end.
pub proof fn law_a_pop_out_given_up_is_put_back<F: Fn(&Ask) -> Outcome>(
    spawn: &F,
    m: ManagerView,
    d: DetachedView,
    n: ManagerView,
)
    requires
        giving_up(spawn, m, d, n),
    ensures
        ({
            let i = window_index(m, d.origin_label);
            if is_live(m, d.origin_label) && attachable(
                m.windows[i].registry,
                d.tab_id,
                d.secondary,
            ) {
                holds_surfaces(n.windows[i].registry.tabs, d)
            } else {
                &&& n.outbox.contains(EffectView::Surface(SurfaceCmdView::Close(d.surface)))
                &&& d.secondary matches Some(s) ==> n.outbox.contains(
                    EffectView::Surface(SurfaceCmdView::Close(s)),
                )
            }
        }),
{
    let i = window_index(m, d.origin_label);
    lemma_rank(labels_of(m.windows), d.origin_label);
    if is_live(m, d.origin_label) && attachable(m.windows[i].registry, d.tab_id, d.secondary) {
        let v = m.windows[i].registry;
        let back = attached(v, d.tab_id, d.surface, d.secondary);
        lemma_position(v.tabs, d.tab_id);
        let k = position(v.tabs, d.tab_id);
        assert(back.tabs[k].id == d.tab_id);
        assert(back.tabs[k].primary.slot == TabSlot::Spawned(d.surface));
        match back.active {
            Some(a) => {
                let (w, r) = choose|w: RegistryView, r: Result<bool, SurfaceError>|
                    #[trigger] activation(spawn, back, a, w, r) && n == settled(m, i, w);
                law_activating_ends_no_terminal(spawn, back, a, w, r);
                assert(w.tabs[k].id == d.tab_id);
                assert(n.windows[i].registry.tabs == w.tabs);
                assert(n.windows[i].registry.tabs[k].id == d.tab_id);
            },
            None => {
                assert(n.windows[i].registry.tabs == back.tabs);
                assert(n.windows[i].registry.tabs[k].id == d.tab_id);
            },
        }
    } else {
        law_homeless_terminals_end(m, d.surface, d.secondary);
    }
}

/// A pop-out that fails leaves every tab where it was: none is popped out that
/// was not before.
pub proof fn law_a_failed_pop_out_leaves_all_in_place<F: Fn(&Ask) -> Outcome>(
    spawn: &F,
    m: ManagerView,
    label: Seq<char>,
    id: Seq<char>,
    n: ManagerView,
    r: Result<PopOut, String>,
    j: int,
    k: int,
)
    requires
        popping_out(spawn, m, label, id, n, r),
        r is Err,
        0 <= j < m.windows.len(),
        0 <= k < m.windows[j].registry.tabs.len(),
    ensures
        n.detached == m.detached,
        n.windows.len() == m.windows.len(),
        n.windows[j].registry.tabs.len() == m.windows[j].registry.tabs.len(),
        n.windows[j].registry.tabs[k].primary.slot is Detached
            <==> m.windows[j].registry.tabs[k].primary.slot is Detached,
{
    let i = window_index(m, label);
    lemma_rank(labels_of(m.windows), label);
    if is_live(m, label) {
        let v0 = m.windows[i].registry;
        let (v, s) = choose|v: RegistryView, s: Result<(), SurfaceError>|
            {
                &&& #[trigger] spawning(spawn, m.windows[i].registry, id, v, s)
                &&& match s {
                    Err(e) => {
                        &&& n == settled(m, i, v)
                        &&& r is Err
                        &&& r->Err_0@ == "could not open the tab to pop it out: "@ + e.text()
                    },
                    Ok(_) => {
                        &&& n == settled(m, i, detached(v, id))
                        &&& match detachable(v, id) {
                            Some((p, q)) => {
                                &&& r is Ok
                                &&& r->Ok_0.origin_label@ == label
                                &&& r->Ok_0.tab_id@ == id
                                &&& r->Ok_0.surface == p
                                &&& r->Ok_0.secondary == q
                                &&& r->Ok_0.title@ == tab_at(v.tabs, id).title
                                &&& r->Ok_0.colour@ == m.windows[i].colour
                                &&& r->Ok_0.token@ == detach_token(label, id)
                            },
                            None => r is Err && r->Err_0@ == "tab is not available to pop out"@,
                        }
                    },
                }
            };
        let (p, q) = choose|p: Outcome, q: Outcome|
            {
                &&& #[trigger] activates(spawn, v0, id, p, q)
                &&& v == (if known(v0.tabs, id) {
                    live_at(v0, position(v0.tabs, id), p, q)
                } else {
                    v0
                })
                &&& s == match activate_report(v0, id, p) {
                    Ok(_) => Ok::<(), SurfaceError>(()),
                    Err(e) => Err(e),
                }
            };
        lemma_position(v0.tabs, id);
        if known(v0.tabs, id) {
            let at = position(v0.tabs, id);
            crate::pane_laws::law_terminals_go_where_they_lack(v0, at, p, q);
            if j == i && k != at {
                assert(v.tabs[k] == v0.tabs[k]);
            }
        }
        assert(n.windows[i].registry.tabs == v.tabs);
    }
}

/// A popped-out tab that is brought back to a live window has its terminals
/// there, and they are moved into that window.
pub proof fn law_a_tab_is_brought_home<F: Fn(&Ask) -> Outcome>(
    spawn: &F,
    m: ManagerView,
    label: Seq<char>,
    n: ManagerView,
)
    requires
        redocking(spawn, m, label, n),
        !m.quitting,
        is_out(m, label),
        is_live(m, m.detached[detached_index(m, label)].origin_label),
        known(
            m.windows[window_index(
                m,
                m.detached[detached_index(m, label)].origin_label,
            )].registry.tabs,
            m.detached[detached_index(m, label)].tab_id,
        ),
        tab_ids(
            m.windows[window_index(
                m,
                m.detached[detached_index(m, label)].origin_label,
            )].registry.tabs,
        ).no_duplicates(),
    ensures
        ({
            let d = m.detached[detached_index(m, label)];
            holds_surfaces(n.windows[window_index(m, d.origin_label)].registry.tabs, d)
        }),
{
    let k = detached_index(m, label);
    let d = m.detached[k];
    let without = ManagerView { detached: m.detached.remove(k), ..m };
    let mid = choose|mid: ManagerView|
        {
            &&& if is_live(m, d.origin_label) {
                mid == without
            } else {
                reopening(spawn, without, d.origin_label, mid)
            }
            &&& #[trigger] homing(spawn, mid, m.detached[detached_index(m, label)], n)
        };
    assert(mid.windows == m.windows);
    law_a_returning_tab_keeps_its_terminals(spawn, mid, d, n);
}

/// A popped-out tab whose window was closed has that window reopened for it, as
/// long as it is configured.
pub proof fn law_a_closed_window_reopens_for_its_tab<F: Fn(&Ask) -> Outcome>(
    spawn: &F,
    m: ManagerView,
    label: Seq<char>,
    n: ManagerView,
)
    requires
        in_order(m),
        redocking(spawn, m, label, n),
        !m.quitting,
        is_out(m, label),
        reopenable(m, m.detached[detached_index(m, label)].origin_label),
    ensures
        is_live(n, m.detached[detached_index(m, label)].origin_label),
{
    let k = detached_index(m, label);
    let d = m.detached[k];
    let ds = crate::manager::detached_labels(m.detached);
    lemma_rank(ds, label);
    let without = ManagerView { detached: m.detached.remove(k), ..m };
    let mid = choose|mid: ManagerView|
        {
            &&& if is_live(m, d.origin_label) {
                mid == without
            } else {
                reopening(spawn, without, d.origin_label, mid)
            }
            &&& #[trigger] homing(spawn, mid, m.detached[detached_index(m, label)], n)
        };
    let rest = crate::manager::detached_labels(without.detached);
    assert(rest =~= ds.remove(k));
    assert(in_order(without)) by {
        assert forall|a: int, b: int|
            0 <= a < rest.len() && 0 <= b < rest.len() && a != b implies rest[a] != rest[b] by {
            let x = if a < k {
                a
            } else {
                a + 1
            };
            let y = if b < k {
                b
            } else {
                b + 1
            };
            assert(ds[x] != ds[y]);
        }
    }
    law_reopening_keeps_order(spawn, without, d.origin_label, mid);
    lemma_rank(labels_of(mid.windows), d.origin_label);
    let i = window_index(mid, d.origin_label);
    let (v, r) = choose|v: RegistryView, r: Option<Seq<char>>|
        {
            &&& #[trigger] unloading(spawn, mid.windows[i].registry, d.tab_id, v, r)
            &&& taking_back(spawn, moved_home(settled(mid, i, v), d), i, d, n)
        };
    let home = moved_home(settled(mid, i, v), d);
    let x = home.windows[i].registry;
    assert(labels_of(home.windows) =~= labels_of(mid.windows));
    if attachable(x, d.tab_id, d.secondary) {
        let back = attached(x, d.tab_id, d.surface, d.secondary);
        let show = crate::popout::to_show(back, d.tab_id);
        let (w, a) = choose|w: RegistryView, a: Result<bool, SurfaceError>|
            #[trigger] activation(spawn, back, show, w, a) && n == settled(home, i, w);
        assert(labels_of(n.windows) =~= labels_of(home.windows));
    } else {
        assert(n.windows == home.windows);
    }
}

/// Once a tab is kept outside, the window that it came from is told afresh what
/// it shows.
pub proof fn law_the_origin_is_refreshed(m: ManagerView, d: DetachedView, n: ManagerView)
    requires
        keeping(m, d, n),
        is_live(m, d.origin_label),
    ensures
        n.outbox.last() is Refresh,
        n.outbox.last()->Refresh_0.label == d.origin_label,
        n.windows == m.windows,
{
    let i = window_index(m, d.origin_label);
    lemma_rank(labels_of(m.windows), d.origin_label);
    assert(labels_of(m.windows)[i] == d.origin_label);
}

/// What asks for a look names the window that is to be looked at: the one that
/// was asked about, the one of the tab that was told to start, and the one that
/// a popped-out tab returns to. Only a started tab is awaited.
pub proof fn law_looks_are_asked_for_by_window(m: ManagerView, label: Seq<char>, id: Seq<char>)
    ensures
        look_bump(label).label == label,
        look_bump(label).tab is None,
        look_bump(label).await_present is None,
        session_bump(label, id).label == label,
        session_bump(label, id).tab == Some(id),
        session_bump(label, id).await_present == Some(true),
        return_bump(m, label) is Some <==> !m.quitting && is_out(m, label),
        return_bump(m, label) matches Some(b) ==> {
            &&& b.label == m.detached[detached_index(m, label)].origin_label
            &&& b.tab is None
            &&& b.await_present is None
        },
{
}

/// Raising and calling in a popped-out tab are said of the window that it stands
/// in, and of nothing where it is not out.
pub proof fn law_a_popped_out_tab_is_reached(m: ManagerView, label: Seq<char>, id: Seq<char>)
    ensures
        out_of_tab(m.detached, label, id, 0) is None ==> raised(m, label, id) == m && called_in(
            m,
            label,
            id,
        ) == m,
        out_of_tab(m.detached, label, id, 0) matches Some(l) ==> {
            &&& raised(m, label, id).outbox == m.outbox.push(EffectView::FocusWindow(l))
            &&& called_in(m, label, id).outbox == m.outbox.push(EffectView::CloseWindow(l))
            &&& raised(m, label, id).windows == m.windows
            &&& called_in(m, label, id).windows == m.windows
            &&& raised(m, label, id).detached == m.detached
            &&& called_in(m, label, id).detached == m.detached
        },
{
}

/// Only the second hole of a popped-out window closes by itself: its terminal
/// ends, and both that window and the one its tab came from are told.
pub proof fn law_only_the_second_hole_closes(m: ManagerView, label: Seq<char>, pane: usize)
    ensures
        pane != 1 || !is_out(m, label) ==> hole_closed(m, label, pane) == m,
        pane == 1 && is_out(m, label) ==> match m.detached[detached_index(m, label)].secondary {
            None => hole_closed(m, label, pane) == m,
            Some(s) => {
                let d = m.detached[detached_index(m, label)];
                let n = hole_closed(m, label, pane);
                &&& n.outbox == m.outbox.push(
                    EffectView::Surface(SurfaceCmdView::Close(s)),
                ).push(EffectView::OneHole(label)).push(
                    EffectView::PaneClosed { label: d.origin_label, id: d.tab_id },
                )
                &&& n.detached[detached_index(m, label)].secondary is None
                &&& n.detached[detached_index(m, label)].surface == d.surface
                &&& n.windows == m.windows
            },
        },
{
    lemma_rank(crate::manager::detached_labels(m.detached), label);
}

/// The keyboard goes to the pane of the number that is named, the second for
/// one and the first for any other, where the tab has that pane.
pub proof fn law_the_pane_of_that_number_gets_the_keyboard(
    m: ManagerView,
    label: Seq<char>,
    id: Seq<char>,
    pane: usize,
)
    requires
        is_live(m, label),
        known(m.windows[window_index(m, label)].registry.tabs, id),
    ensures
        ({
            let i = window_index(m, label);
            let was = tab_at(m.windows[i].registry.tabs, id);
            let is = tab_at(pane_focused(m, label, id, pane).windows[i].registry.tabs, id);
            &&& pane == 1 && was.secondary is Some ==> is.focused is Secondary
            &&& pane == 1 && was.secondary is None ==> is.focused == was.focused
            &&& pane != 1 ==> is.focused is Primary
        }),
{
    let i = window_index(m, label);
    lemma_rank(labels_of(m.windows), label);
    let v = m.windows[i].registry;
    crate::pane_laws::law_the_keyboard_goes_to_the_pane_named(
        v,
        id,
        if pane == 1 {
            PaneIdx::Secondary
        } else {
            PaneIdx::Primary
        },
    );
}

/// What is wrong with a configuration is kept, and said where there is a window
/// to say it in; nothing else changes.
pub proof fn law_a_failed_load_is_kept_and_said(m: ManagerView, message: Seq<char>)
    ensures
        load_noted(m, message).load_error == Some(message),
        load_noted(m, message).windows == m.windows,
        load_noted(m, message).detached == m.detached,
        load_noted(m, message).last_good == m.last_good,
        m.windows.len() == 0 && m.detached.len() == 0 ==> load_noted(m, message).outbox == m.outbox,
        m.windows.len() > 0 || m.detached.len() > 0 ==> load_noted(m, message).outbox
            == m.outbox.push(EffectView::Error { window: None, message }),
{
}

/// A tab that comes back has the window that it comes back to told afresh what
/// it shows.
pub proof fn law_a_return_is_shown<F: Fn(&Ask) -> Outcome>(
    spawn: &F,
    m: ManagerView,
    label: Seq<char>,
    n: ManagerView,
)
    requires
        tab_returns(spawn, m, label, n),
        !m.quitting,
        is_out(m, label),
    ensures
        is_live(n, m.detached[detached_index(m, label)].origin_label) ==> {
            &&& n.outbox.len() > 0 && n.outbox.last() is Refresh
            &&& n.outbox.last()->Refresh_0.label == m.detached[detached_index(
                m,
                label,
            )].origin_label
        },
{
    let origin = m.detached[detached_index(m, label)].origin_label;
    let mid = choose|mid: ManagerView|
        {
            &&& #[trigger] redocking(spawn, m, label, mid)
            &&& if is_live(mid, origin) {
                refreshing(mid, window_index(mid, origin), n)
            } else {
                n == mid
            }
        };
    assert(n.windows == mid.windows);
    if is_live(mid, origin) {
        lemma_rank(labels_of(mid.windows), origin);
        assert(labels_of(mid.windows)[window_index(mid, origin)] == origin);
    }
}

} // verus!
