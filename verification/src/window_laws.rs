//! What holds of every window, of what is popped out of it, and of what the
//! application is told to do with them.

use crate::commands::{activation_bump, hole_framed};
use crate::lifecycle::{
    adding_all, additions, applying, are_snapshots, builds, builds_window, changes_nothing,
    failure_line, failure_lines, failures_text, fills, joined_lines, materializing, new_registry,
    op_applies, opened, operations, ops_apply, recoloured, refreshed, reloading, rescanning,
    restyling, showing_first, update_applies, updated, updating,
};
use crate::manager::{
    all_targets, close_both, current_specs, detached_index, home_of, is_live, is_out, is_snapshot,
    labels_of, lemma_rank, menu_rows, out_of_surface, out_of_tab, settled, window_index,
    window_of_surface, DetachedView, EffectView, HomeView, InitDtoView, ManagerView,
    WindowStateView,
};
use crate::model::{ConfigView, WindowView};
use crate::notify::is_noticed;
use crate::pane_laws::{law_a_surface_is_found_where_it_runs, runs};
use crate::plan::{
    spec_of, TabPlanView, TabUpdateView, WindowMenuEntryView, WindowOpView, WindowSpecView,
};
use crate::popout::{
    child_exits, docked, docked_from, moved_home, out_ended, out_exit, out_secondary_closed,
    surface_focused, taking_back,
};
use crate::presence::{known_of, Presence};
use crate::reconcile::difference;
use crate::registry::{
    activation, adding, attachable, attached, clearing, known, leaned, leans, lemma_position,
    live_neighbour, liveness, located, placeholders_cleared, position, tab_at, targets_of, Ask,
    AskView, Outcome, PaneIdx, PixelRect, RegistryView, SurfaceCmdView, TabEntryView, TabSlot,
};
use crate::surface::SurfaceError;
use crate::manager_laws::law_activating_ends_no_terminal;
use crate::registry_laws::law_lean_finds_a_live_tab;
use vstd::prelude::*;

verus! {

/// Whether a tab of a window, known as `tab`, has the surface `h`.
pub open spec fn has_surface(w: WindowStateView, tab: Seq<char>, h: usize) -> bool {
    exists|k: int|
        0 <= k < w.registry.tabs.len() && (#[trigger] w.registry.tabs[k]).id == tab && runs(
            w.registry.tabs[k],
            h,
        )
}

/// Whether a tab is in view: its window has the focus, and shows it.
pub open spec fn in_view(w: WindowStateView, tab: Seq<char>, focused: Option<Seq<char>>) -> bool {
    focused == Some(w.label) && w.registry.active == Some(tab)
}

proof fn lemma_window_of_surface(
    ws: Seq<WindowStateView>,
    h: usize,
    focused: Option<Seq<char>>,
    i: int,
) -> (at: int)
    requires
        0 <= i <= ws.len(),
    ensures
        match window_of_surface(ws, h, focused, i) {
            Some((label, tab, visible)) => {
                &&& i <= at < ws.len()
                &&& ws[at].label == label
                &&& has_surface(ws[at], tab, h)
                &&& visible <==> in_view(ws[at], tab, focused)
            },
            None => forall|j: int, k: int|
                i <= j < ws.len() && 0 <= k < ws[j].registry.tabs.len() ==> !runs(
                    #[trigger] ws[j].registry.tabs[k],
                    h,
                ),
        },
    decreases ws.len() - i,
{
    if i >= ws.len() {
        i
    } else {
        law_a_surface_is_found_where_it_runs(ws[i].registry.tabs, h);
        match located(ws[i].registry.tabs, h) {
            Some((tab, which)) => {
                let tabs = ws[i].registry.tabs;
                let k = choose|k: int|
                    0 <= k < tabs.len() && (#[trigger] tabs[k]).id == tab && tabs[k].slot(which)
                        == Some(TabSlot::Spawned(h));
                assert(ws[i].registry.tabs[k].id == tab && runs(ws[i].registry.tabs[k], h));
                i
            },
            None => {
                let at = lemma_window_of_surface(ws, h, focused, i + 1);
                if window_of_surface(ws, h, focused, i + 1) is None {
                    assert forall|j: int, k: int|
                        i <= j < ws.len() && 0 <= k < ws[j].registry.tabs.len() implies !runs(
                        #[trigger] ws[j].registry.tabs[k],
                        h,
                    ) by {}
                }
                at
            },
        }
    }
}

/// A surface is found in a window and a tab that have it, and counts as in view
/// exactly where that window has the focus and shows that tab. It is not found
/// only where no window has it.
pub proof fn law_a_surface_is_in_view_with_its_tab(
    ws: Seq<WindowStateView>,
    h: usize,
    focused: Option<Seq<char>>,
)
    ensures
        match window_of_surface(ws, h, focused, 0) {
            Some((label, tab, visible)) => exists|i: int|
                {
                    &&& 0 <= i < ws.len()
                    &&& (#[trigger] ws[i]).label == label
                    &&& has_surface(ws[i], tab, h)
                    &&& visible <==> focused == Some(label) && ws[i].registry.active == Some(tab)
                },
            None => forall|j: int, k: int|
                0 <= j < ws.len() && 0 <= k < ws[j].registry.tabs.len() ==> !runs(
                    #[trigger] ws[j].registry.tabs[k],
                    h,
                ),
        },
{
    let at = lemma_window_of_surface(ws, h, focused, 0);
    if window_of_surface(ws, h, focused, 0) is Some {
        assert(ws[at].label == (window_of_surface(ws, h, focused, 0)->0).0);
    }
}

/// At most one tab is in view at a time.
pub proof fn law_one_tab_is_in_view(
    ws: Seq<WindowStateView>,
    g: usize,
    h: usize,
    focused: Option<Seq<char>>,
)
    requires
        labels_of(ws).no_duplicates(),
        window_of_surface(ws, g, focused, 0) is Some,
        (window_of_surface(ws, g, focused, 0)->0).2,
        window_of_surface(ws, h, focused, 0) is Some,
        (window_of_surface(ws, h, focused, 0)->0).2,
    ensures
        (window_of_surface(ws, g, focused, 0)->0).0 == (window_of_surface(ws, h, focused, 0)->0).0,
        (window_of_surface(ws, g, focused, 0)->0).1 == (window_of_surface(ws, h, focused, 0)->0).1,
{
    let a = lemma_window_of_surface(ws, g, focused, 0);
    let b = lemma_window_of_surface(ws, h, focused, 0);
    assert(labels_of(ws)[a] == labels_of(ws)[b]);
}

/// A signal of a surface that only tabs have which are not the one that the
/// focused window shows always comes to a notice, and one of a surface that
/// only that tab has never does.
pub proof fn law_what_is_out_of_view_is_noticed(
    ws: Seq<WindowStateView>,
    h: usize,
    focused: Option<Seq<char>>,
    i: int,
    k: int,
)
    requires
        0 <= i < ws.len(),
        0 <= k < ws[i].registry.tabs.len(),
        runs(ws[i].registry.tabs[k], h),
    ensures
        (forall|a: int, b: int|
            0 <= a < ws.len() && 0 <= b < ws[a].registry.tabs.len() && runs(
                #[trigger] ws[a].registry.tabs[b],
                h,
            ) ==> !in_view(ws[a], ws[a].registry.tabs[b].id, focused)) ==> is_noticed(
            window_of_surface(ws, h, focused, 0),
        ),
        (forall|a: int, b: int|
            0 <= a < ws.len() && 0 <= b < ws[a].registry.tabs.len() && runs(
                #[trigger] ws[a].registry.tabs[b],
                h,
            ) ==> in_view(ws[a], ws[a].registry.tabs[b].id, focused)) ==> !is_noticed(
            window_of_surface(ws, h, focused, 0),
        ),
{
    let at = lemma_window_of_surface(ws, h, focused, 0);
    let found = window_of_surface(ws, h, focused, 0);
    assert(found is Some);
    let tab = (found->0).1;
    let j = choose|j: int|
        0 <= j < ws[at].registry.tabs.len() && (#[trigger] ws[at].registry.tabs[j]).id == tab
            && runs(ws[at].registry.tabs[j], h);
    assert(runs(ws[at].registry.tabs[j], h));
}

/// What a window's page is told: what the window is called and looks like, and
/// of each tab in order what it is and, where one is known, its presence.
pub proof fn law_a_page_is_told_its_window(
    d: InitDtoView,
    w: WindowStateView,
    known: Map<Seq<char>, Presence>,
    c: ConfigView,
    error: Option<Seq<char>>,
    k: int,
)
    requires
        is_snapshot(d, w, known, c, error),
        0 <= k < w.registry.tabs.len(),
    ensures
        d.label == w.label,
        d.title == w.title,
        d.colour == w.colour,
        d.density == c.density.token(),
        d.sidebar_drag == c.sidebar_drag,
        d.auto_update == c.auto_update,
        d.error == error,
        d.tabs.len() == w.registry.tabs.len(),
        d.tabs[k].id == w.registry.tabs[k].id,
        d.tabs[k].title == w.registry.tabs[k].title,
        d.tabs[k].group == w.registry.tabs[k].primary.spec.group,
        d.tabs[k].has_probe == (w.registry.tabs[k].primary.spec.probe is Some),
        d.tabs[k].has_kill == (w.registry.tabs[k].primary.spec.kill is Some),
        d.tabs[k].has_cmd == (w.registry.tabs[k].primary.spec.startup is Some),
        d.tabs[k].spawned == (w.registry.tabs[k].primary.slot is Spawned),
        d.tabs[k].detached == (w.registry.tabs[k].primary.slot is Detached),
        d.tabs[k].split == (w.registry.tabs[k].secondary is Some),
        d.tabs[k].tree == w.registry.tabs[k].primary.spec.tree,
        d.tabs[k].tree_path == w.registry.tabs[k].primary.spec.tree_path,
        d.tabs[k].presence == if known.contains_key(w.registry.tabs[k].id) {
            Some(known[w.registry.tabs[k].id])
        } else {
            None
        },
{
}

/// What is done to the registry of a window stays with that window: the rest
/// of it and every other window are as they were, and every command of it goes
/// out, in order, behind what went out before.
pub proof fn law_commands_go_out_in_order(m: ManagerView, i: int, v: RegistryView, k: int)
    requires
        0 <= i < m.windows.len(),
        0 <= k < v.outbox.len(),
    ensures
        ({
            let n = settled(m, i, v);
            &&& n.windows.len() == m.windows.len()
            &&& forall|j: int|
                0 <= j < m.windows.len() && j != i ==> #[trigger] n.windows[j] == m.windows[j]
            &&& n.windows[i].label == m.windows[i].label
            &&& n.windows[i].title == m.windows[i].title
            &&& n.windows[i].colour == m.windows[i].colour
            &&& n.windows[i].registry.tabs == v.tabs
            &&& n.windows[i].registry.active == v.active
            &&& n.windows[i].registry.outbox.len() == 0
            &&& n.outbox.len() == m.outbox.len() + v.outbox.len()
            &&& n.outbox.take(m.outbox.len() as int) == m.outbox
            &&& n.outbox[m.outbox.len() + k] == EffectView::Surface(v.outbox[k])
            &&& n.detached == m.detached && n.names == m.names && n.last_closed == m.last_closed
        }),
{
    assert(settled(m, i, v).outbox.take(m.outbox.len() as int) =~= m.outbox);
}

/// The window menu has a row for each configured window, in the order of the
/// configuration, and says of each whether it is open.
pub proof fn law_the_menu_lists_the_windows(m: ManagerView, k: int)
    requires
        0 <= k < menu_rows(m).len(),
    ensures
        menu_rows(m).len() == current_specs(m).len(),
        menu_rows(m)[k].label == current_specs(m)[k].label,
        menu_rows(m)[k].title == current_specs(m)[k].title,
        menu_rows(m)[k].colour == current_specs(m)[k].colour,
        menu_rows(m)[k].open <==> is_live(m, current_specs(m)[k].label),
{
    let l = current_specs(m)[k].label;
    lemma_rank(labels_of(m.windows), l);
    if is_live(m, l) {
        assert(labels_of(m.windows)[window_index(m, l)] == l);
    }
}

/// The home surface lists the windows where the configuration is there and
/// sound, and says what is wrong with it where it is not.
pub proof fn law_the_home_surface_tells_why(
    m: ManagerView,
    config_exists: bool,
    path: Seq<char>,
    error: Seq<char>,
    rows: Seq<WindowMenuEntryView>,
)
    ensures
        home_of(m, config_exists, path) == Some(HomeView::Windows(rows)) <==> {
            &&& m.windows.len() == 0 && m.detached.len() == 0
            &&& config_exists && m.load_error is None && rows == menu_rows(m)
        },
        home_of(m, config_exists, path) == Some(HomeView::Broken(error)) <==> {
            &&& m.windows.len() == 0 && m.detached.len() == 0
            &&& config_exists && m.load_error == Some(error)
        },
        home_of(m, config_exists, path) == Some(HomeView::NoConfig(path)) <==> {
            &&& m.windows.len() == 0 && m.detached.len() == 0
            &&& !config_exists
        },
{
}

proof fn lemma_out_of_surface(ds: Seq<DetachedView>, h: usize, i: int) -> (at: int)
    requires
        0 <= i <= ds.len(),
    ensures
        match out_of_surface(ds, h, i) {
            Some((label, which)) => {
                &&& i <= at < ds.len()
                &&& ds[at].label == label
                &&& which is Primary ==> ds[at].surface == h
                &&& which is Secondary ==> ds[at].secondary == Some(h)
            },
            None => forall|k: int|
                i <= k < ds.len() ==> (#[trigger] ds[k]).surface != h && ds[k].secondary != Some(h),
        },
    decreases ds.len() - i,
{
    if i >= ds.len() || ds[i].surface == h || ds[i].secondary == Some(h) {
        i
    } else {
        lemma_out_of_surface(ds, h, i + 1)
    }
}

/// A surface that is out is found under the label of a popped-out window that
/// has it, in the pane that it has it in, and is not found only where none has
/// it.
pub proof fn law_a_surface_is_found_outside(ds: Seq<DetachedView>, h: usize)
    ensures
        match out_of_surface(ds, h, 0) {
            Some((label, which)) => exists|k: int|
                {
                    &&& 0 <= k < ds.len()
                    &&& (#[trigger] ds[k]).label == label
                    &&& which is Primary ==> ds[k].surface == h
                    &&& which is Secondary ==> ds[k].secondary == Some(h)
                },
            None => forall|k: int|
                0 <= k < ds.len() ==> (#[trigger] ds[k]).surface != h && ds[k].secondary != Some(h),
        },
{
    let at = lemma_out_of_surface(ds, h, 0);
    if out_of_surface(ds, h, 0) is Some {
        assert(ds[at].label == (out_of_surface(ds, h, 0)->0).0);
    }
}

proof fn lemma_out_of_tab(ds: Seq<DetachedView>, origin: Seq<char>, tab: Seq<char>, i: int)
    requires
        0 <= i <= ds.len(),
    ensures
        match out_of_tab(ds, origin, tab, i) {
            Some(label) => exists|k: int|
                i <= k < ds.len() && (#[trigger] ds[k]).label == label && ds[k].origin_label == origin
                    && ds[k].tab_id == tab,
            None => forall|k: int|
                i <= k < ds.len() ==> (#[trigger] ds[k]).origin_label != origin || ds[k].tab_id
                    != tab,
        },
    decreases ds.len() - i,
{
    if i < ds.len() {
        lemma_out_of_tab(ds, origin, tab, i + 1);
        if ds[i].origin_label == origin && ds[i].tab_id == tab {
            assert(ds[i].label == ds[i].label);
        } else if out_of_tab(ds, origin, tab, i + 1) is Some {
            let label = out_of_tab(ds, origin, tab, i + 1)->0;
            let k = choose|k: int|
                i + 1 <= k < ds.len() && (#[trigger] ds[k]).label == label && ds[k].origin_label
                    == origin && ds[k].tab_id == tab;
            assert(ds[k].label == label);
        }
    }
}

/// A popped-out tab is found by the window it came from and its identity, both
/// of them.
pub proof fn law_a_tab_is_found_outside(ds: Seq<DetachedView>, origin: Seq<char>, tab: Seq<char>)
    ensures
        match out_of_tab(ds, origin, tab, 0) {
            Some(label) => exists|k: int|
                0 <= k < ds.len() && (#[trigger] ds[k]).label == label && ds[k].origin_label == origin
                    && ds[k].tab_id == tab,
            None => forall|k: int|
                0 <= k < ds.len() ==> (#[trigger] ds[k]).origin_label != origin || ds[k].tab_id
                    != tab,
        },
{
    lemma_out_of_tab(ds, origin, tab, 0);
}

/// Every window that is asked about is swept, all of them where none is named,
/// with the probes of its own tabs.
pub proof fn law_sweeps_cover_the_windows(
    ws: Seq<WindowStateView>,
    only: Option<Seq<char>>,
    label: Seq<char>,
    work: Seq<crate::registry::ProbeTargetView>,
)
    ensures
        all_targets(ws, only).contains((label, work)) <==> exists|k: int|
            0 <= k < ws.len() && (#[trigger] ws[k]).label == label && work == targets_of(
                ws[k].registry.tabs,
            ) && (only is Some ==> only->0 == label),
    decreases ws.len(),
{
    if ws.len() > 0 {
        let rest = ws.drop_last();
        let w = ws.last();
        law_sweeps_cover_the_windows(rest, only, label, work);
        let q = all_targets(rest, only);
        let r = all_targets(ws, only);
        let x = (label, work);
        assert(ws[ws.len() - 1] == w);
        if q.contains(x) {
            let k = choose|k: int| 0 <= k < q.len() && q[k] == x;
            assert(r[k] == x);
            let j = choose|k: int|
                0 <= k < rest.len() && (#[trigger] rest[k]).label == label && work == targets_of(
                    rest[k].registry.tabs,
                ) && (only is Some ==> only->0 == label);
            assert(ws[j] == rest[j]);
        }
        if !(only is Some && only->0 != w.label) {
            assert(r[q.len() as int] == (w.label, targets_of(w.registry.tabs)));
        }
        if r.contains(x) {
            let k = choose|k: int| 0 <= k < r.len() && r[k] == x;
            if k < q.len() {
                assert(q[k] == x);
            }
        }
        if exists|k: int|
            0 <= k < ws.len() && (#[trigger] ws[k]).label == label && work == targets_of(
                ws[k].registry.tabs,
            ) && (only is Some ==> only->0 == label) {
            let k = choose|k: int|
                0 <= k < ws.len() && (#[trigger] ws[k]).label == label && work == targets_of(
                    ws[k].registry.tabs,
                ) && (only is Some ==> only->0 == label);
            if k < rest.len() {
                assert(rest[k] == ws[k]);
            }
        }
    } else {
        assert(all_targets(ws, only).len() == 0);
    }
}

/// Whether a tab known as `id` has a probe.
pub open spec fn is_probed(tabs: Seq<TabEntryView>, id: Seq<char>) -> bool {
    exists|k: int|
        0 <= k < tabs.len() && (#[trigger] tabs[k]).id == id && tabs[k].primary.spec.probe is Some
}

/// Activating a tab asks for a look at its window that begins with it, and
/// awaits its start exactly where its terminal was just started and a probe can
/// tell.
pub proof fn law_a_started_tab_is_awaited(
    m: ManagerView,
    label: Seq<char>,
    id: Seq<char>,
    fresh: bool,
)
    ensures
        activation_bump(m, label, id, fresh).label == label,
        activation_bump(m, label, id, fresh).tab == Some(id),
        activation_bump(m, label, id, fresh).await_present != Some(false),
        activation_bump(m, label, id, fresh).await_present == Some(true) <==> fresh && is_probed(
            m.windows[window_index(m, label)].registry.tabs,
            id,
        ),
{
}

/// A rectangle of a hole goes to the pane of that number, the first where none
/// is named: in a live window as its registry says, in a popped-out one to the
/// surface that stands there.
pub proof fn law_a_hole_frames_its_pane(
    m: ManagerView,
    label: Seq<char>,
    pane: Option<usize>,
    rect: PixelRect,
)
    ensures
        is_live(m, label) && pane == Some(1usize) ==> hole_framed(m, label, pane, rect).windows[
            window_index(m, label)].registry.rect_secondary == rect,
        is_live(m, label) && pane != Some(1usize) ==> hole_framed(m, label, pane, rect).windows[
            window_index(m, label)].registry.rect == rect,
        !is_live(m, label) && is_out(m, label) && pane != Some(1usize) ==> hole_framed(
            m,
            label,
            pane,
            rect,
        ).outbox == m.outbox.push(
            EffectView::Surface(
                SurfaceCmdView::SetFrame(m.detached[detached_index(m, label)].surface, rect),
            ),
        ),
        !is_live(m, label) && is_out(m, label) && pane == Some(1usize) ==> match m.detached[
            detached_index(m, label)].secondary {
            Some(s) => hole_framed(m, label, pane, rect).outbox == m.outbox.push(
                EffectView::Surface(SurfaceCmdView::SetFrame(s, rect)),
            ),
            None => hole_framed(m, label, pane, rect) == m,
        },
        !is_live(m, label) ==> hole_framed(m, label, pane, rect).windows == m.windows,
        !is_live(m, label) && !is_out(m, label) ==> hole_framed(m, label, pane, rect) == m,
{
    lemma_rank(labels_of(m.windows), label);
}

/// Closing the second hole of a popped-out window ends the terminal that stood
/// there, keeps the first, and leaves every other popped-out window alone.
pub proof fn law_closing_a_hole_ends_its_terminal(m: ManagerView, label: Seq<char>, s: usize)
    requires
        is_out(m, label),
        m.detached[detached_index(m, label)].secondary == Some(s),
    ensures
        ({
            let n = out_secondary_closed(m, label);
            let k = detached_index(m, label);
            &&& n.detached.len() == m.detached.len()
            &&& n.detached[k].secondary is None
            &&& n.detached[k].surface == m.detached[k].surface
            &&& n.detached[k].label == m.detached[k].label
            &&& n.detached[k].origin_label == m.detached[k].origin_label
            &&& n.detached[k].tab_id == m.detached[k].tab_id
            &&& forall|j: int|
                0 <= j < m.detached.len() && j != k ==> #[trigger] n.detached[j] == m.detached[j]
            &&& n.outbox == m.outbox.push(EffectView::Surface(SurfaceCmdView::Close(s)))
            &&& n.windows == m.windows
        }),
{
    lemma_rank(crate::manager::detached_labels(m.detached), label);
}

/// Every surface of a popped-out tab is moved back into the window that the tab
/// came from.
pub proof fn law_surfaces_move_home(m: ManagerView, d: DetachedView)
    ensures
        moved_home(m, d).outbox.contains(
            EffectView::Reparent { surface: d.surface, into: d.origin_label },
        ),
        d.secondary matches Some(s) ==> moved_home(m, d).outbox.contains(
            EffectView::Reparent { surface: s, into: d.origin_label },
        ),
        moved_home(m, d).outbox.len() == m.outbox.len() + if d.secondary is Some {
            2nat
        } else {
            1nat
        },
        moved_home(m, d).windows == m.windows,
        moved_home(m, d).detached == m.detached,
{
    let n = moved_home(m, d).outbox;
    assert(n[m.outbox.len() as int] == EffectView::Reparent {
        surface: d.surface,
        into: d.origin_label,
    });
    if d.secondary is Some {
        assert(n[m.outbox.len() as int + 1] == EffectView::Reparent {
            surface: d.secondary->0,
            into: d.origin_label,
        });
    }
}

/// Where a popped-out tab cannot go back, both its terminals end.
pub proof fn law_homeless_terminals_end(m: ManagerView, primary: usize, secondary: Option<usize>)
    ensures
        close_both(m, primary, secondary).outbox.contains(
            EffectView::Surface(SurfaceCmdView::Close(primary)),
        ),
        secondary matches Some(s) ==> close_both(m, primary, secondary).outbox.contains(
            EffectView::Surface(SurfaceCmdView::Close(s)),
        ),
        close_both(m, primary, secondary).windows == m.windows,
        close_both(m, primary, secondary).detached == m.detached,
{
    let n = close_both(m, primary, secondary).outbox;
    assert(n[m.outbox.len() as int] == EffectView::Surface(SurfaceCmdView::Close(primary)));
    if secondary is Some {
        assert(n[m.outbox.len() as int + 1] == EffectView::Surface(SurfaceCmdView::Close(secondary->0)));
    }
}

/// When the first terminal of a popped-out tab ends, its window goes: it is
/// forgotten and closed, both terminals end, and the window that the tab came
/// from is told that the tab has ended.
pub proof fn law_an_exit_outside_closes_the_window<F: Fn(&Ask) -> Outcome>(
    spawn: &F,
    m: ManagerView,
    k: int,
    n: ManagerView,
)
    requires
        0 <= k < m.detached.len(),
        out_exit(spawn, m, k, n),
    ensures
        n.detached == m.detached.remove(k),
        n.outbox.contains(EffectView::CloseWindow(m.detached[k].label)),
        n.outbox.contains(EffectView::Surface(SurfaceCmdView::Close(m.detached[k].surface))),
        m.detached[k].secondary matches Some(s) ==> n.outbox.contains(
            EffectView::Surface(SurfaceCmdView::Close(s)),
        ),
        n.outbox.last() matches EffectView::TabExited { label, id, .. } && label
            == m.detached[k].origin_label && id == m.detached[k].tab_id,
{
    let d = m.detached[k];
    let ended = out_ended(m, k);
    law_homeless_terminals_end(
        ManagerView { detached: m.detached.remove(k), ..m },
        d.surface,
        d.secondary,
    );
    let i = window_index(m, d.origin_label);
    let said = n.outbox;
    if is_live(m, d.origin_label) {
        let (v, r, dto) = choose|v: RegistryView, r: Option<Seq<char>>, dto: InitDtoView|
            {
                &&& clearing(spawn, m.windows[i].registry, d.tab_id, v, r)
                &&& is_snapshot(
                    dto,
                    settled(ended, i, v).windows[i],
                    known_of(m.presence, m.windows[i].label),
                    m.last_good,
                    m.windows[i].spawn_error,
                )
                &&& n == #[trigger] crate::popout::out_exit_said(
                    out_ended(m, k),
                    m.detached[k],
                    i,
                    v,
                    r,
                    dto,
                )
            };
        let mid = settled(ended, i, v).outbox;
        assert(mid.take(ended.outbox.len() as int) =~= ended.outbox);
        assert(said[mid.len() as int] == EffectView::CloseWindow(d.label));
        lemma_said(ended.outbox, said, EffectView::Surface(SurfaceCmdView::Close(d.surface)));
        if d.secondary is Some {
            lemma_said(
                ended.outbox,
                said,
                EffectView::Surface(SurfaceCmdView::Close(d.secondary->0)),
            );
        }
    } else {
        assert(said[ended.outbox.len() as int] == EffectView::CloseWindow(d.label));
        lemma_said(ended.outbox, said, EffectView::Surface(SurfaceCmdView::Close(d.surface)));
        if d.secondary is Some {
            lemma_said(
                ended.outbox,
                said,
                EffectView::Surface(SurfaceCmdView::Close(d.secondary->0)),
            );
        }
    }
}

/// What was said is still said with more behind it.
proof fn lemma_said(before: Seq<EffectView>, after: Seq<EffectView>, e: EffectView)
    requires
        before.len() <= after.len(),
        forall|j: int| 0 <= j < before.len() ==> #[trigger] after[j] == before[j],
        before.contains(e),
    ensures
        after.contains(e),
{
    let j = choose|j: int| 0 <= j < before.len() && before[j] == e;
    assert(after[j] == e);
}

/// A surface that gets the keyboard is told of by the pane that it stands in:
/// in a live window its tab has the keyboard there from then on, and in a
/// popped-out one the hole is told.
pub proof fn law_the_keyboard_is_followed(m: ManagerView, h: usize)
    ensures
        ({
            let n = surface_focused(m, h);
            let i = docked(m, h);
            &&& n.windows.len() == m.windows.len()
            &&& n.detached == m.detached
            &&& i < m.windows.len() ==> {
                let at = located(m.windows[i].registry.tabs, h)->0;
                &&& n == m || {
                    &&& n.outbox.last() == EffectView::PaneFocused {
                        label: m.windows[i].label,
                        id: at.0,
                        pane: if at.1 is Secondary {
                            1
                        } else {
                            0
                        },
                    }
                    &&& tab_at(n.windows[i].registry.tabs, at.0).focused == at.1
                }
            }
            &&& i >= m.windows.len() ==> match out_of_surface(m.detached, h, 0) {
                Some((label, which)) => n.windows == m.windows && n.outbox == m.outbox.push(
                    EffectView::FocusHole {
                        label,
                        pane: if which is Secondary {
                            1
                        } else {
                            0
                        },
                    },
                ),
                None => n == m,
            }
        }),
{
    let i = docked(m, h);
    lemma_docked_range(m.windows, h, 0);
    if i < m.windows.len() {
        let tabs = m.windows[i].registry.tabs;
        let at = located(tabs, h)->0;
        let moved = crate::registry::focus_moved(m.windows[i].registry, at.0, at.1);
        lemma_position(tabs, at.0);
        lemma_position(moved.tabs, at.0);
        if known(tabs, at.0) {
            let p = position(tabs, at.0);
            let q = position(moved.tabs, at.0);
            assert(forall|j: int| 0 <= j < tabs.len() ==> (#[trigger] moved.tabs[j]).id == tabs[j].id);
            assert(moved.tabs[p].id == at.0);
            if q < p {
                assert(moved.tabs[q].id == tabs[q].id);
            }
            assert(p == q);
        }
    }
}

proof fn lemma_docked_range(ws: Seq<WindowStateView>, h: usize, i: int)
    requires
        0 <= i <= ws.len(),
    ensures
        i <= docked_from(ws, h, i) <= ws.len(),
        docked_from(ws, h, i) < ws.len() ==> located(
            ws[docked_from(ws, h, i)].registry.tabs,
            h,
        ) is Some,
    decreases ws.len() - i,
{
    if i < ws.len() {
        lemma_docked_range(ws, h, i + 1);
    }
}

/// A window is asked for under its label, with the title and in the size that
/// its configuration gives it.
pub proof fn law_a_window_is_asked_for_in_its_size<F: Fn(&Ask) -> Outcome>(
    spawn: &F,
    x: WindowView,
    label: Seq<char>,
    w: WindowStateView,
)
    requires
        builds(spawn, spec_of(x, label), w),
    ensures
        exists|a: &Ask, h: usize|
            {
                &&& #[trigger] call_ensures(
                    spawn,
                    (a,),
                    Ok::<usize, SurfaceError>(h),
                )
                &&& a@ == AskView::Window { label, title: x.title, width: x.width, height: x.height }
            },
{
    let s = spec_of(x, label);
    let h = choose|h: usize| builds_window(spawn, s, h) && #[trigger] fills(spawn, s, h, w);
    assert(builds_window(spawn, s, h));
}

/// Whether what is not windows, their names and what goes out is the same.
pub open spec fn same_rest(m: ManagerView, n: ManagerView) -> bool {
    &&& n.last_good == m.last_good
    &&& n.raw_config == m.raw_config
    &&& n.load_error == m.load_error
    &&& n.probe_interval == m.probe_interval
    &&& n.presence == m.presence
    &&& n.last_closed == m.last_closed
    &&& n.detached == m.detached
    &&& n.quitting == m.quitting
}

proof fn lemma_op_rest<F: Fn(&Ask) -> Outcome>(
    spawn: &F,
    m: ManagerView,
    op: WindowOpView,
    c: ConfigView,
    n: ManagerView,
)
    requires
        op_applies(spawn, m, op, c, n),
    ensures
        same_rest(m, n),
{
    match op {
        WindowOpView::Update(u) => {
            assert(update_applies(spawn, m, u, c, n));
        },
        _ => {},
    }
}

proof fn lemma_operations_rest<F: Fn(&Ask) -> Outcome>(
    spawn: &F,
    ms: Seq<ManagerView>,
    ops: Seq<WindowOpView>,
    c: ConfigView,
    k: int,
)
    requires
        operations(spawn, ms, ops, c),
        0 <= k <= ops.len(),
    ensures
        same_rest(ms[0], ms[k]),
    decreases k,
{
    if k > 0 {
        lemma_operations_rest(spawn, ms, ops, c, k - 1);
        assert(op_applies(spawn, ms[k - 1], ops[k - 1], c, ms[k]));
        lemma_op_rest(spawn, ms[k - 1], ops[k - 1], c, ms[k]);
    }
}

proof fn lemma_ops_rest<F: Fn(&Ask) -> Outcome>(
    spawn: &F,
    m: ManagerView,
    ops: Seq<WindowOpView>,
    c: ConfigView,
    n: ManagerView,
)
    requires
        ops_apply(spawn, m, ops, c, n),
    ensures
        same_rest(m, n),
{
    let ms = choose|ms: Seq<ManagerView>|
        #[trigger] operations(spawn, ms, ops, c) && ms[0] == m && ms.last() == n;
    lemma_operations_rest(spawn, ms, ops, c, ops.len() as int);
}

/// Once a configuration is loaded it is the one that is kept, as it was written
/// and as it was searched; its interval is the one that is polled at, and what
/// was wrong with an earlier one is forgotten. What is popped out, what was
/// seen running and what was closed stay.
pub proof fn law_a_loaded_config_is_kept<F: Fn(&Ask) -> Outcome>(
    spawn: &F,
    m: ManagerView,
    raw: ConfigView,
    eff: ConfigView,
    n: ManagerView,
)
    requires
        reloading(spawn, m, raw, eff, n) || materializing(spawn, m, raw, eff, n),
    ensures
        n.last_good == eff,
        n.raw_config == raw,
        n.load_error is None,
        n.probe_interval == raw.probe_interval,
        n.presence == m.presence,
        n.last_closed == m.last_closed,
        n.detached == m.detached,
        n.quitting == m.quitting,
{
    let clear = ManagerView { load_error: None, ..m };
    if reloading(spawn, m, raw, eff, n) && m.last_good.windows.len() > 0 {
        let restyle = m.last_good.density != raw.density || m.last_good.sidebar_drag
            != raw.sidebar_drag;
        let mid = choose|mid: ManagerView|
            {
                &&& #[trigger] applying(spawn, clear, difference(m.last_good, eff), eff, mid)
                &&& restyling(
                    ManagerView { last_good: eff, raw_config: raw, ..mid },
                    restyle,
                    raw.probe_interval,
                    n,
                )
            };
        lemma_ops_rest(
            spawn,
            clear,
            crate::plan::ops_of(
                difference(m.last_good, eff),
                eff,
                clear.names,
                labels_of(clear.windows),
            ),
            eff,
            mid,
        );
    } else {
        let from = if reloading(spawn, m, raw, eff, n) {
            clear
        } else {
            m
        };
        let begun = ManagerView {
            load_error: None,
            probe_interval: raw.probe_interval,
            ..from
        };
        assert(materializing(spawn, from, raw, eff, n));
        let ops = crate::plan::open_ops(
            crate::lifecycle::starting(
                crate::plan::configured(eff, Seq::empty(), Seq::empty()),
            ),
        );
        let mid = choose|mid: ManagerView|
            {
                &&& #[trigger] ops_apply(spawn, begun, ops, eff, mid)
                &&& n == (ManagerView { raw_config: raw, last_good: eff, ..mid })
            };
        lemma_ops_rest(spawn, begun, ops, eff, mid);
    }
}

/// A new search of the roots keeps the configuration as it was written.
pub proof fn law_a_search_keeps_the_written_config<F: Fn(&Ask) -> Outcome>(
    spawn: &F,
    m: ManagerView,
    fresh: ConfigView,
    n: ManagerView,
)
    requires
        rescanning(spawn, m, fresh, n),
    ensures
        n.last_good == fresh,
        n.raw_config == m.raw_config,
        n.load_error == m.load_error,
        n.probe_interval == m.probe_interval,
        n.detached == m.detached,
        n.presence == m.presence,
{
    let mid = choose|mid: ManagerView|
        {
            &&& #[trigger] applying(spawn, m, difference(m.last_good, fresh), fresh, mid)
            &&& n == (ManagerView { last_good: fresh, ..mid })
        };
    lemma_ops_rest(
        spawn,
        m,
        crate::plan::ops_of(difference(m.last_good, fresh), fresh, m.names, labels_of(m.windows)),
        fresh,
        mid,
    );
}

/// Whether a window was told afresh what it shows.
pub open spec fn was_refreshed(n: ManagerView, label: Seq<char>) -> bool {
    exists|k: int|
        0 <= k < n.outbox.len() && (#[trigger] n.outbox[k]) is Refresh && n.outbox[k]->Refresh_0.label
            == label
}

/// Where the density or the dragging of the sidebar changed, every window that
/// is then live is told afresh what it shows.
pub proof fn law_new_looks_reach_every_window<F: Fn(&Ask) -> Outcome>(
    spawn: &F,
    m: ManagerView,
    raw: ConfigView,
    eff: ConfigView,
    n: ManagerView,
    i: int,
)
    requires
        m.last_good.windows.len() > 0,
        reloading(spawn, m, raw, eff, n),
        m.last_good.density != raw.density || m.last_good.sidebar_drag != raw.sidebar_drag,
        0 <= i < n.windows.len(),
    ensures
        was_refreshed(n, n.windows[i].label),
{
    let clear = ManagerView { load_error: None, ..m };
    let mid = choose|mid: ManagerView|
        {
            &&& #[trigger] applying(spawn, clear, difference(m.last_good, eff), eff, mid)
            &&& restyling(
                ManagerView { last_good: eff, raw_config: raw, ..mid },
                true,
                raw.probe_interval,
                n,
            )
        };
    let kept = ManagerView { last_good: eff, raw_config: raw, ..mid };
    let ds = choose|ds: Seq<InitDtoView>|
        {
            &&& are_snapshots(ds, kept, kept.windows.len() as int)
            &&& n == (ManagerView {
                probe_interval: raw.probe_interval,
                ..#[trigger] refreshed(kept, ds)
            })
        };
    assert(is_snapshot(
        ds[i],
        kept.windows[i],
        known_of(kept.presence, kept.windows[i].label),
        kept.last_good,
        kept.windows[i].spawn_error,
    ));
    assert(n.outbox[kept.outbox.len() + i] == EffectView::Refresh(ds[i]));
}

/// The end of a terminal is dealt with where it stands: in the window and the
/// tab that have it, or outside; where nothing has it nothing happens.
pub proof fn law_an_exit_goes_where_its_surface_is<F: Fn(&Ask) -> Outcome>(
    spawn: &F,
    m: ManagerView,
    h: usize,
    n: ManagerView,
)
    requires
        child_exits(spawn, m, h, n),
        crate::manager::detached_labels(m.detached).no_duplicates(),
    ensures
        match (docked(m, h) < m.windows.len(), out_of_surface(m.detached, h, 0)) {
            (true, _) => {
                let w = m.windows[docked(m, h)];
                let at = located(w.registry.tabs, h)->0;
                if at.1 is Secondary {
                    n.outbox.last() == (EffectView::PaneClosed { label: w.label, id: at.0 })
                } else {
                    &&& n.outbox.last() is TabExited
                    &&& n.outbox.last()->TabExited_label == w.label
                    &&& n.outbox.last()->TabExited_id == at.0
                }
            },
            (false, Some((label, which))) => exists|k: int|
                {
                    &&& 0 <= k < m.detached.len()
                    &&& (#[trigger] m.detached[k]).label == label
                    &&& which is Primary ==> m.detached[k].surface == h && n.detached
                        == m.detached.remove(k)
                    &&& which is Secondary ==> {
                        &&& m.detached[k].secondary == Some(h)
                        &&& n.detached.len() == m.detached.len()
                        &&& n.detached[k].secondary is None
                        &&& n.detached[k].surface == m.detached[k].surface
                        &&& n.outbox.contains(EffectView::Surface(SurfaceCmdView::Close(h)))
                        &&& n.outbox.contains(EffectView::OneHole(label))
                        &&& n.outbox.last() == (EffectView::PaneClosed {
                            label: m.detached[k].origin_label,
                            id: m.detached[k].tab_id,
                        })
                    }
                },
            (false, None) => n == m,
        },
{
    let i = docked(m, h);
    lemma_docked_range(m.windows, h, 0);
    if i >= m.windows.len() && out_of_surface(m.detached, h, 0) is Some {
        let (label, which) = out_of_surface(m.detached, h, 0)->0;
        let at = lemma_out_of_surface(m.detached, h, 0);
        let labels = crate::manager::detached_labels(m.detached);
        let k = detached_index(m, label);
        lemma_rank(labels, label);
        assert(labels[at] == label);
        assert(labels[k] == label);
        assert(k == at);
        assert(m.detached[k].label == label);
        match which {
            PaneIdx::Primary => {
                law_an_exit_outside_closes_the_window(spawn, m, k, n);
            },
            PaneIdx::Secondary => {
                law_closing_a_hole_ends_its_terminal(m, label, h);
                let mid = out_secondary_closed(m, label).outbox;
                assert(mid[m.outbox.len() as int] == EffectView::Surface(SurfaceCmdView::Close(h)));
                assert(n.outbox[m.outbox.len() as int] == mid[m.outbox.len() as int]);
                assert(n.outbox[mid.len() as int] == EffectView::OneHole(label));
            },
        }
    }
}

/// An updated window is told afresh what it shows, as it is after the update.
pub proof fn law_an_updated_window_is_refreshed<F: Fn(&Ask) -> Outcome>(
    spawn: &F,
    m: ManagerView,
    u: TabUpdateView,
    c: ConfigView,
    n: ManagerView,
)
    requires
        update_applies(spawn, m, u, c, n),
    ensures
        n == m || {
            let i = window_index(m, u.label);
            &&& is_live(m, u.label)
            &&& n.outbox.last() is Refresh
            &&& is_snapshot(
                n.outbox.last()->Refresh_0,
                n.windows[i],
                known_of(n.presence, n.windows[i].label),
                c,
                None,
            )
            &&& forall|j: int|
                0 <= j < m.windows.len() && j != i ==> #[trigger] n.windows[j] == m.windows[j]
        },
{
    let i = window_index(m, u.label);
    lemma_rank(labels_of(m.windows), u.label);
    if is_live(m, u.label) && !changes_nothing(m.windows[i].registry, u) {
        let (v, d) = choose|v: RegistryView, d: InitDtoView|
            {
                &&& updating(spawn, m.windows[i].registry, u, v)
                &&& is_snapshot(
                    d,
                    settled(recoloured(m, i, u.colour), i, v).windows[i],
                    known_of(m.presence, m.windows[i].label),
                    c,
                    None,
                )
                &&& n == #[trigger] updated(m, i, u.colour, v, d)
            };
        assert(n.outbox.last() == EffectView::Refresh(d));
        let mid = settled(recoloured(m, i, u.colour), i, v);
        assert(n.windows == mid.windows);
        assert(mid.windows[i].label == m.windows[i].label);
    }
}

/// Opening a window sends out everything that its registry has to say, behind
/// what was said before.
pub proof fn law_an_opened_window_says_what_it_has(
    m: ManagerView,
    s: WindowSpecView,
    w: WindowStateView,
    k: int,
)
    requires
        0 <= k < w.registry.outbox.len(),
    ensures
        opened(m, s, w).outbox.len() == m.outbox.len() + w.registry.outbox.len(),
        opened(m, s, w).outbox[m.outbox.len() + k] == EffectView::Surface(w.registry.outbox[k]),
        opened(m, s, w).detached == m.detached,
{
}

proof fn lemma_failure_lines(
    plans: Seq<TabPlanView>,
    rs: Seq<Result<(), SurfaceError>>,
    line: Seq<char>,
)
    ensures
        failure_lines(plans, rs).contains(line) <==> exists|k: int|
            0 <= k < rs.len() && (#[trigger] rs[k]) is Err && line == plans[k].spec.title + ": "@
                + rs[k]->Err_0.text(),
    decreases rs.len(),
{
    if rs.len() > 0 {
        let rest = rs.drop_last();
        let n = rs.len() - 1;
        lemma_failure_lines(plans, rest, line);
        let q = failure_lines(plans, rest);
        let r = failure_lines(plans, rs);
        assert(rs[n] == rs.last());
        if q.contains(line) {
            let k = choose|k: int| 0 <= k < q.len() && q[k] == line;
            assert(r[k] == line);
            let j = choose|k: int|
                0 <= k < rest.len() && (#[trigger] rest[k]) is Err && line == plans[k].spec.title
                    + ": "@ + rest[k]->Err_0.text();
            assert(rs[j] == rest[j]);
        }
        if rs[n] is Err {
            assert(r[q.len() as int] == plans[n].spec.title + ": "@ + rs[n]->Err_0.text());
        }
        if r.contains(line) {
            let k = choose|k: int| 0 <= k < r.len() && r[k] == line;
            if k < q.len() {
                assert(q[k] == line);
            }
        }
        if exists|k: int|
            0 <= k < rs.len() && (#[trigger] rs[k]) is Err && line == plans[k].spec.title + ": "@
                + rs[k]->Err_0.text() {
            let k = choose|k: int|
                0 <= k < rs.len() && (#[trigger] rs[k]) is Err && line == plans[k].spec.title + ": "@
                    + rs[k]->Err_0.text();
            if k < n {
                assert(rest[k] == rs[k]);
            }
        }
    } else {
        assert(failure_lines(plans, rs).len() == 0);
    }
}

/// What could not be started is said of each tab by its title, and nothing is
/// said where all could be.
pub proof fn law_failed_terminals_are_named(
    plans: Seq<TabPlanView>,
    rs: Seq<Result<(), SurfaceError>>,
    line: Seq<char>,
    other: Seq<char>,
)
    ensures
        failure_lines(plans, rs).contains(line) <==> exists|k: int|
            0 <= k < rs.len() && (#[trigger] rs[k]) is Err && line == plans[k].spec.title + ": "@
                + rs[k]->Err_0.text(),
        failures_text(seq![line]) == Some("couldn't open terminal — "@ + line),
        failures_text(Seq::empty()) is None,
        failures_text(seq![line, other]) == Some(
            "couldn't open terminal — "@ + (line + "; "@ + other),
        ),
{
    lemma_failure_lines(plans, rs, line);
    let two = seq![line, other];
    assert(two.drop_last() =~= seq![line]);
    assert(joined_lines(two.drop_last()) == line);
}

proof fn lemma_no_failures(plans: Seq<TabPlanView>, rs: Seq<Result<(), SurfaceError>>)
    requires
        forall|k: int| 0 <= k < rs.len() ==> (#[trigger] rs[k]) is Ok,
    ensures
        failure_lines(plans, rs).len() == 0,
    decreases rs.len(),
{
    if rs.len() > 0 {
        assert(rs[rs.len() - 1] is Ok);
        assert forall|k: int| 0 <= k < rs.drop_last().len() implies (
        #[trigger] rs.drop_last()[k]) is Ok by {
            assert(rs[k] is Ok);
        }
        lemma_no_failures(plans, rs.drop_last());
    }
}

/// A window all of whose terminals can be had has nothing to complain of.
pub proof fn law_nothing_is_said_where_nothing_fails<F: Fn(&Ask) -> Outcome>(
    spawn: &F,
    s: WindowSpecView,
    w: WindowStateView,
)
    requires
        builds(spawn, s, w),
        forall|a: &Ask, o: Outcome| #[trigger] call_ensures(spawn, (a,), o) ==> o is Ok,
    ensures
        w.spawn_error is None,
{
    let h = choose|h: usize| builds_window(spawn, s, h) && #[trigger] fills(spawn, s, h, w);
    let (mid, before, lines) = choose|
        mid: RegistryView,
        before: Seq<Seq<char>>,
        lines: Seq<Seq<char>>,
    |
        {
            &&& #[trigger] adding_all(spawn, new_registry(h), s.tabs, mid, before)
            &&& #[trigger] showing_first(spawn, mid, s.tabs, before, w.registry, lines)
            &&& w == (WindowStateView {
                label: s.label,
                title: s.title,
                colour: s.colour,
                spawn_error: failures_text(lines),
                registry: w.registry,
            })
        };
    let (vs, rs) = choose|vs: Seq<RegistryView>, rs: Seq<Result<(), SurfaceError>>|
        {
            &&& #[trigger] additions(spawn, vs, s.tabs, rs)
            &&& vs[0] == new_registry(h)
            &&& vs.last() == mid
            &&& before == failure_lines(s.tabs, rs)
        };
    assert forall|k: int| 0 <= k < rs.len() implies (#[trigger] rs[k]) is Ok by {
        let plan = s.tabs[k];
        assert(adding(spawn, vs[k], plan.spec, plan.load_on_open, vs[k + 1], rs[k]));
    }
    lemma_no_failures(s.tabs, rs);
    if s.tabs.len() > 0 {
        let first = s.tabs[0].spec.id;
        let r = choose|r: Result<bool, SurfaceError>|
            {
                &&& #[trigger] activation(spawn, mid, first, w.registry, r)
                &&& lines == match r {
                    Ok(_) => before,
                    Err(e) => {
                        let line = failure_line(s.tabs[0].spec.title, e);
                        if before.contains(line) {
                            before
                        } else {
                            before.push(line)
                        }
                    },
                }
            };
        assert(r is Ok);
    }
}

/// A tab that comes back does not take the place of what its window shows; it
/// is shown itself where nothing was.
pub proof fn law_a_returning_tab_is_shown_where_nothing_was<F: Fn(&Ask) -> Outcome>(
    spawn: &F,
    m: ManagerView,
    i: int,
    d: DetachedView,
    n: ManagerView,
)
    requires
        taking_back(spawn, m, i, d, n),
        0 <= i < m.windows.len(),
        attachable(m.windows[i].registry, d.tab_id, d.secondary),
    ensures
        m.windows[i].registry.active is None ==> n.windows[i].registry.active == Some(d.tab_id),
        m.windows[i].registry.active is Some ==> n.windows[i].registry.active
            == m.windows[i].registry.active,
{
    let v = m.windows[i].registry;
    let back = attached(v, d.tab_id, d.surface, d.secondary);
    let show = crate::popout::to_show(back, d.tab_id);
    let (w, r) = choose|w: RegistryView, r: Result<bool, SurfaceError>|
        #[trigger] activation(spawn, back, show, w, r) && n == settled(m, i, w);
    law_activating_ends_no_terminal(spawn, back, show, w, r);
    lemma_position(v.tabs, d.tab_id);
    lemma_position(back.tabs, d.tab_id);
    let p = position(v.tabs, d.tab_id);
    assert(back.tabs[p].id == d.tab_id);
    assert(n.windows[i].registry.active == w.active);
}

/// Once a popped-out tab has ended, the window that it came from shows on what
/// it showed; where that was the tab itself, it shows what is said to be next.
pub proof fn law_an_ended_pop_out_is_left<F: Fn(&Ask) -> Outcome>(
    spawn: &F,
    v: RegistryView,
    id: Seq<char>,
    w: RegistryView,
    r: Option<Seq<char>>,
)
    requires
        clearing(spawn, v, id, w, r),
        known(v.tabs, id),
        tab_at(v.tabs, id).primary.slot is Detached,
    ensures
        r is Some ==> w.active == r,
        v.active != Some(id) ==> w.active == v.active && r is None,
        v.active == Some(id) ==> w.active == r,
{
    let cleared = placeholders_cleared(v, id);
    let i = position(v.tabs, id);
    lemma_position(v.tabs, id);
    if v.active == Some(id) {
        let (p, s) = choose|p: Outcome, s: Outcome|
            leans(spawn, cleared, i, p, s) && w == #[trigger] leaned(cleared, i, p, s);
        if r is Some {
            law_lean_finds_a_live_tab(liveness(cleared.tabs), i);
            let k = live_neighbour(liveness(cleared.tabs), i)->0;
            lemma_position(cleared.tabs, r->0);
            assert(cleared.tabs[k].id == r->0);
        }
    }
}

} // verus!
