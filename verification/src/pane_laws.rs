//! What the operations on a registry do to its tabs, panes and surfaces.

use crate::reconcile::TabMetaView;
use crate::registry::{
    activate_report, activated, added, appended, attachable, attached, closings, detachable, detached,
    display_cmds, display_entry, dto_of, focus_moved, framed, hide_cmds, kill_of, known,
    lemma_position, live_after, live_at, live_before, live_neighbour, located, located_from,
    placeholders_cleared, position, rank, ranked, ranked_upto, removed, reordered, request_at,
    secondary_closed, show_cmds, split_tab, start_cmds, surfaces_closed, tab_at, targets_of,
    with_meta, Outcome, PaneIdx, PixelRect, RegistryView, SurfaceCmdView, TabEntryView, TabSlot,
};
use crate::registry_laws::orderly;
use crate::surface::TabSpecView;
use vstd::prelude::*;

verus! {

/// Every tab of a registry but the first one known as `id` is the same in
/// another.
pub open spec fn others_alike(a: Seq<TabEntryView>, b: Seq<TabEntryView>, id: Seq<char>) -> bool {
    &&& a.len() == b.len()
    &&& forall|k: int| 0 <= k < a.len() ==> (#[trigger] a[k]).id == b[k].id
    &&& forall|k: int| 0 <= k < a.len() && k != position(a, id) ==> #[trigger] a[k] == b[k]
}

/// Nothing but the tabs of a registry is different.
pub open spec fn only_tabs_differ(v: RegistryView, w: RegistryView) -> bool {
    &&& v.window == w.window
    &&& v.active == w.active
    &&& v.rect == w.rect
    &&& v.rect_secondary == w.rect_secondary
    &&& v.outbox == w.outbox
}

/// Whether a pane of a tab has a terminal here.
pub open spec fn has_terminal(t: TabEntryView, which: PaneIdx) -> bool {
    t.slot(which) matches Some(TabSlot::Spawned(_))
}

/// Whether a tab has a terminal in one of its panes.
pub open spec fn runs(t: TabEntryView, h: usize) -> bool {
    t.primary.slot == TabSlot::Spawned(h) || (t.secondary matches Some(p) && p.slot
        == TabSlot::Spawned(h))
}

proof fn lemma_position_alike(a: Seq<TabEntryView>, b: Seq<TabEntryView>, id: Seq<char>)
    requires
        a.len() == b.len(),
        forall|k: int| 0 <= k < a.len() ==> (#[trigger] a[k]).id == b[k].id,
    ensures
        position(a, id) == position(b, id),
{
    lemma_position(a, id);
    lemma_position(b, id);
    let x = position(a, id);
    let y = position(b, id);
    if x < y {
        assert(a[x].id == b[x].id);
    }
    if y < x {
        assert(a[y].id == b[y].id);
    }
}

/// New metadata changes what its tab is called, where it stands and what
/// watches and ends it. Its terminals, their directory and what they run stay,
/// and so does every other tab.
pub proof fn law_metadata_reaches_its_tab(
    v: RegistryView,
    id: Seq<char>,
    meta: TabMetaView,
    tree: bool,
    path: Seq<Seq<char>>,
)
    requires
        known(v.tabs, id),
    ensures
        ({
            let w = with_meta(v, id, meta, tree, path);
            let was = tab_at(v.tabs, id);
            let is = tab_at(w.tabs, id);
            &&& only_tabs_differ(v, w)
            &&& others_alike(v.tabs, w.tabs, id)
            &&& is.id == id
            &&& is.title == meta.title
            &&& is.primary.spec.title == meta.title
            &&& is.primary.spec.group == meta.group
            &&& is.primary.spec.probe == meta.probe
            &&& is.primary.spec.kill == meta.kill
            &&& is.primary.spec.split == meta.split
            &&& is.primary.spec.tree == tree
            &&& is.primary.spec.tree_path == path
            &&& is.primary.slot == was.primary.slot
            &&& is.primary.spec.id == was.primary.spec.id
            &&& is.primary.spec.dir == was.primary.spec.dir
            &&& is.primary.spec.shell == was.primary.spec.shell
            &&& is.primary.spec.startup == was.primary.spec.startup
            &&& is.secondary == was.secondary
            &&& is.focused == was.focused
        }),
{
    lemma_position(v.tabs, id);
    lemma_position_alike(v.tabs, with_meta(v, id, meta, tree, path).tabs, id);
}

proof fn lemma_targets(tabs: Seq<TabEntryView>, x: (Seq<char>, Seq<char>, Seq<char>, Seq<char>))
    ensures
        targets_of(tabs).contains(x) <==> exists|k: int|
            0 <= k < tabs.len() && (#[trigger] tabs[k]).id == x.0 && tabs[k].primary.spec.dir
                == x.1 && tabs[k].title == x.2 && tabs[k].primary.spec.probe == Some(x.3),
    decreases tabs.len(),
{
    if tabs.len() > 0 {
        let rest = tabs.drop_last();
        let t = tabs.last();
        lemma_targets(rest, x);
        let q = targets_of(rest);
        let r = targets_of(tabs);
        assert(tabs[tabs.len() - 1] == t);
        if q.contains(x) {
            let k = choose|k: int| 0 <= k < q.len() && q[k] == x;
            assert(r[k] == x);
            let j = choose|k: int|
                0 <= k < rest.len() && (#[trigger] rest[k]).id == x.0 && rest[k].primary.spec.dir
                    == x.1 && rest[k].title == x.2 && rest[k].primary.spec.probe == Some(x.3);
            assert(tabs[j] == rest[j]);
        }
        if t.primary.spec.probe is Some {
            assert(r[q.len() as int] == (t.id, t.primary.spec.dir, t.title, t.primary.spec.probe->0));
        }
        if r.contains(x) {
            let k = choose|k: int| 0 <= k < r.len() && r[k] == x;
            if k < q.len() {
                assert(q[k] == x);
            }
        }
        if exists|k: int|
            0 <= k < tabs.len() && (#[trigger] tabs[k]).id == x.0 && tabs[k].primary.spec.dir
                == x.1 && tabs[k].title == x.2 && tabs[k].primary.spec.probe == Some(x.3) {
            let k = choose|k: int|
                0 <= k < tabs.len() && (#[trigger] tabs[k]).id == x.0 && tabs[k].primary.spec.dir
                    == x.1 && tabs[k].title == x.2 && tabs[k].primary.spec.probe == Some(x.3);
            if k < rest.len() {
                assert(rest[k] == tabs[k]);
            }
        }
    } else {
        assert(targets_of(tabs).len() == 0);
    }
}

/// Exactly the tabs with a probe are looked at, each under its own identity, in
/// its own directory, by its own title and with its own command.
pub proof fn law_tabs_with_a_probe_are_looked_at(
    tabs: Seq<TabEntryView>,
    id: Seq<char>,
    dir: Seq<char>,
    title: Seq<char>,
    probe: Seq<char>,
)
    ensures
        targets_of(tabs).contains((id, dir, title, probe)) <==> exists|k: int|
            0 <= k < tabs.len() && (#[trigger] tabs[k]).id == id && tabs[k].primary.spec.dir == dir
                && tabs[k].title == title && tabs[k].primary.spec.probe == Some(probe),
{
    lemma_targets(tabs, (id, dir, title, probe));
}

/// Once a tab has new metadata it is looked at with the probe that this gives,
/// and ended with the kill command that it gives.
pub proof fn law_metadata_is_what_watches_and_ends(
    v: RegistryView,
    id: Seq<char>,
    meta: TabMetaView,
    tree: bool,
    path: Seq<Seq<char>>,
    cmd: Seq<char>,
)
    requires
        known(v.tabs, id),
    ensures
        ({
            let w = with_meta(v, id, meta, tree, path);
            let dir = tab_at(v.tabs, id).primary.spec.dir;
            &&& meta.probe == Some(cmd) ==> targets_of(w.tabs).contains(
                (id, dir, meta.title, cmd),
            )
            &&& meta.kill == Some(cmd) <==> kill_of(w.tabs, id) == Some((dir, meta.title, cmd))
            &&& meta.kill is None <==> kill_of(w.tabs, id) is None
        }),
{
    let w = with_meta(v, id, meta, tree, path);
    let dir = tab_at(v.tabs, id).primary.spec.dir;
    law_metadata_reaches_its_tab(v, id, meta, tree, path);
    lemma_position(v.tabs, id);
    lemma_position(w.tabs, id);
    lemma_position_alike(v.tabs, w.tabs, id);
    if meta.probe == Some(cmd) {
        lemma_targets(w.tabs, (id, dir, meta.title, cmd));
        assert(w.tabs[position(w.tabs, id)].id == id);
    }
}

/// A tab is ended with its own command, in its own directory and by its own
/// title, and only where it has one.
pub proof fn law_a_tab_is_ended_by_its_own_command(
    tabs: Seq<TabEntryView>,
    k: int,
    dir: Seq<char>,
    title: Seq<char>,
    cmd: Seq<char>,
)
    requires
        0 <= k < tabs.len(),
        forall|j: int| 0 <= j < k ==> (#[trigger] tabs[j]).id != tabs[k].id,
    ensures
        kill_of(tabs, tabs[k].id) == Some((dir, title, cmd)) <==> {
            &&& tabs[k].primary.spec.kill == Some(cmd)
            &&& tabs[k].primary.spec.dir == dir
            &&& tabs[k].title == title
        },
{
    lemma_position(tabs, tabs[k].id);
}

/// What the sidebar is told of a tab: what it is called and where it stands,
/// what can be done with it, and which of its panes have a terminal here.
pub proof fn law_rows_tell_the_tab(t: TabEntryView, present: bool)
    ensures
        dto_of(t, present).id == t.id,
        dto_of(t, present).title == t.title,
        dto_of(t, present).group == t.primary.spec.group,
        dto_of(t, present).tree == t.primary.spec.tree,
        dto_of(t, present).tree_path == t.primary.spec.tree_path,
        dto_of(t, present).warn <==> !present,
        dto_of(t, present).has_probe <==> t.primary.spec.probe is Some,
        dto_of(t, present).has_kill <==> t.primary.spec.kill is Some,
        dto_of(t, present).has_cmd <==> t.primary.spec.startup is Some,
        dto_of(t, present).spawned <==> t.slot(PaneIdx::Primary) matches Some(TabSlot::Spawned(_)),
        dto_of(t, present).secondary_spawned <==> t.slot(PaneIdx::Secondary) matches Some(
            TabSlot::Spawned(_),
        ),
        dto_of(t, present).detached <==> t.slot(PaneIdx::Primary) == Some(TabSlot::Detached),
        dto_of(t, present).split <==> t.slot(PaneIdx::Secondary) is Some,
        dto_of(t, present).split_layout is Some <==> t.primary.spec.split is Some,
        t.primary.spec.split matches Some(s) ==> {
            let layout = dto_of(t, present).split_layout->0;
            &&& layout.size == s.size
            &&& s.side is Left ==> layout.side == "left"@
            &&& s.side is Right ==> layout.side == "right"@
        },
        dto_of(t, present).presence is None,
{
}

/// The row of a tab follows what is done to it: popping it out takes its
/// terminals from the window, unloading it ends them, splitting it gives it a
/// second pane and closing that takes it away.
pub proof fn law_rows_follow_the_tab(v: RegistryView, id: Seq<char>, present: bool)
    requires
        known(v.tabs, id),
        orderly(v.tabs),
    ensures
        ({
            let was = dto_of(tab_at(v.tabs, id), present);
            let out = dto_of(tab_at(detached(v, id).tabs, id), present);
            let cold = dto_of(tab_at(surfaces_closed(v, id).tabs, id), present);
            let two = dto_of(tab_at(split_tab(v, id).tabs, id), present);
            let one = dto_of(tab_at(secondary_closed(v, id).tabs, id), present);
            let clear = dto_of(tab_at(placeholders_cleared(v, id).tabs, id), present);
            &&& was.spawned ==> out.detached && !out.spawned && !out.secondary_spawned
            &&& !was.spawned ==> out == was
            &&& out.split == was.split
            &&& !cold.spawned && !cold.secondary_spawned && cold.detached == was.detached
            &&& two.split && two.spawned == was.spawned && two.secondary_spawned
                == was.secondary_spawned
            &&& !one.split && one.spawned == was.spawned && !one.secondary_spawned
            &&& !clear.detached && clear.spawned == was.spawned && clear.split == was.split
        }),
{
    lemma_position(v.tabs, id);
    lemma_position_alike(v.tabs, detached(v, id).tabs, id);
    lemma_position_alike(v.tabs, surfaces_closed(v, id).tabs, id);
    lemma_position_alike(v.tabs, split_tab(v, id).tabs, id);
    lemma_position_alike(v.tabs, secondary_closed(v, id).tabs, id);
    lemma_position_alike(v.tabs, placeholders_cleared(v, id).tabs, id);
    assert(crate::registry_laws::orderly_entry(tab_at(v.tabs, id)));
}

/// A terminal is asked for exactly where a pane has none and is not popped out,
/// for a second pane only beside a first that has its own. It is asked for in
/// the window's own view, for what the pane is to run, and where the pane is.
pub proof fn law_terminals_are_asked_for_where_they_lack(v: RegistryView, i: int, which: PaneIdx)
    ensures
        request_at(v, i, which) is Some <==> {
            &&& v.tabs[i].slot(which) == Some(TabSlot::Cold)
            &&& which is Secondary ==> v.tabs[i].slot(PaneIdx::Primary) matches Some(
                TabSlot::Spawned(_),
            )
        },
        request_at(v, i, which) matches Some(q) ==> {
            &&& q.window == v.window
            &&& q.spec == v.tabs[i].pane(which)->0.spec
            &&& which is Primary ==> q.rect == v.rect
            &&& which is Secondary ==> q.rect == v.rect_secondary
        },
{
}

/// What came of asking goes to the pane that lacked a terminal, and to no other:
/// where none could be had the pane still lacks one, and a pane that had one
/// keeps it.
pub proof fn law_terminals_go_where_they_lack(v: RegistryView, i: int, p: Outcome, s: Outcome)
    requires
        0 <= i < v.tabs.len(),
    ensures
        ({
            let w = live_at(v, i, p, s);
            let was = v.tabs[i];
            let is = w.tabs[i];
            &&& only_tabs_differ(v, w)
            &&& w.tabs.len() == v.tabs.len()
            &&& forall|k: int|
                0 <= k < v.tabs.len() && k != i ==> #[trigger] w.tabs[k] == v.tabs[k]
            &&& is.id == was.id && is.title == was.title && is.focused == was.focused
            &&& is.primary.spec == was.primary.spec
            &&& is.primary.slot == match (was.primary.slot, p) {
                (TabSlot::Cold, Ok(h)) => TabSlot::Spawned(h),
                _ => was.primary.slot,
            }
            &&& is.secondary is Some <==> was.secondary is Some
            &&& was.secondary matches Some(q) ==> {
                &&& is.secondary->0.spec == q.spec
                &&& is.secondary->0.slot == match (q.slot, s) {
                    (TabSlot::Cold, Ok(h)) => if is.primary.slot is Spawned {
                        TabSlot::Spawned(h)
                    } else {
                        TabSlot::Cold
                    },
                    _ => q.slot,
                }
            }
        }),
{
}

/// Activating a tab shows it whether or not its terminal could be had, and
/// reports whether one was started, or why it could not be.
pub proof fn law_activating_shows_and_reports(
    v: RegistryView,
    id: Seq<char>,
    p: Outcome,
    s: Outcome,
)
    ensures
        known(v.tabs, id) ==> {
            let w = activated(v, id, p, s);
            let was = tab_at(v.tabs, id);
            &&& w.active == Some(id)
            &&& w.rect == v.rect
            &&& w.rect_secondary == v.rect_secondary
            &&& activate_report(v, id, p) == Ok::<bool, crate::surface::SurfaceError>(true) <==> {
                was.primary.slot is Cold && p is Ok
            }
            &&& activate_report(v, id, p) is Err <==> was.primary.slot is Cold && p is Err
            &&& activate_report(v, id, p) is Err ==> activate_report(v, id, p)->Err_0 == p->Err_0
        },
        !known(v.tabs, id) ==> activated(v, id, p, s) == v && activate_report(v, id, p) == Ok::<
            bool,
            crate::surface::SurfaceError,
        >(false),
{
}

proof fn lemma_show(slot: TabSlot, rect: PixelRect, focus: bool, h: usize, r: PixelRect)
    ensures
        show_cmds(slot, rect, focus).contains(SurfaceCmdView::Show(h)) <==> slot
            == TabSlot::Spawned(h),
        show_cmds(slot, rect, focus).contains(SurfaceCmdView::SetFrame(h, r)) <==> slot
            == TabSlot::Spawned(h) && r == rect,
        show_cmds(slot, rect, focus).contains(SurfaceCmdView::Focus(h)) <==> slot
            == TabSlot::Spawned(h) && focus,
        !show_cmds(slot, rect, focus).contains(SurfaceCmdView::Hide(h)),
        !show_cmds(slot, rect, focus).contains(SurfaceCmdView::Close(h)),
        hide_cmds(slot).contains(SurfaceCmdView::Hide(h)) <==> slot == TabSlot::Spawned(h),
        !hide_cmds(slot).contains(SurfaceCmdView::Show(h)),
        !hide_cmds(slot).contains(SurfaceCmdView::SetFrame(h, r)),
        !hide_cmds(slot).contains(SurfaceCmdView::Focus(h)),
        !hide_cmds(slot).contains(SurfaceCmdView::Close(h)),
{
    let c = show_cmds(slot, rect, focus);
    match slot {
        TabSlot::Spawned(g) => {
            assert(c[0] == SurfaceCmdView::SetFrame(g, rect));
            assert(c[1] == SurfaceCmdView::Show(g));
            if focus {
                assert(c[2] == SurfaceCmdView::Focus(g));
            }
            assert(hide_cmds(slot)[0] == SurfaceCmdView::Hide(g));
        },
        _ => {},
    }
}

proof fn lemma_either(a: Seq<SurfaceCmdView>, b: Seq<SurfaceCmdView>, c: SurfaceCmdView)
    ensures
        (a + b).contains(c) <==> a.contains(c) || b.contains(c),
{
    if a.contains(c) {
        let k = choose|k: int| 0 <= k < a.len() && a[k] == c;
        assert((a + b)[k] == c);
    }
    if b.contains(c) {
        let k = choose|k: int| 0 <= k < b.len() && b[k] == c;
        assert((a + b)[a.len() + k] == c);
    }
    if (a + b).contains(c) {
        let k = choose|k: int| 0 <= k < (a + b).len() && (a + b)[k] == c;
        if k >= a.len() {
            assert(b[k - a.len()] == c);
        } else {
            assert(a[k] == c);
        }
    }
}

/// Whether a pane of a tab has the terminal `h` and is where `r` says.
pub open spec fn stands_at(v: RegistryView, t: TabEntryView, h: usize, r: PixelRect) -> bool {
    ||| t.slot(PaneIdx::Primary) == Some(TabSlot::Spawned(h)) && r == v.rect
    ||| t.slot(PaneIdx::Secondary) == Some(TabSlot::Spawned(h)) && r == v.rect_secondary
}

proof fn lemma_display_entry(v: RegistryView, t: TabEntryView, shown: bool, h: usize, r: PixelRect)
    ensures
        display_entry(v, t, shown).contains(SurfaceCmdView::Show(h)) <==> shown && runs(t, h),
        display_entry(v, t, shown).contains(SurfaceCmdView::Hide(h)) <==> !shown && runs(t, h),
        display_entry(v, t, shown).contains(SurfaceCmdView::SetFrame(h, r)) <==> shown
            && stands_at(v, t, h, r),
        display_entry(v, t, shown).contains(SurfaceCmdView::Focus(h)) <==> shown && t.slot(t.focused)
            == Some(TabSlot::Spawned(h)),
        !display_entry(v, t, shown).contains(SurfaceCmdView::Close(h)),
{
    let slot = t.primary.slot;
    lemma_show(slot, v.rect, t.focused is Primary, h, r);
    let second = match t.secondary {
        Some(p) => if shown {
            show_cmds(p.slot, v.rect_secondary, t.focused is Secondary)
        } else {
            hide_cmds(p.slot)
        },
        None => Seq::empty(),
    };
    if t.secondary is Some {
        lemma_show(t.secondary->0.slot, v.rect_secondary, t.focused is Secondary, h, r);
    }
    let first = if shown {
        show_cmds(slot, v.rect, t.focused is Primary)
    } else {
        hide_cmds(slot)
    };
    assert(display_entry(v, t, shown) == first + second);
    lemma_either(first, second, SurfaceCmdView::Show(h));
    lemma_either(first, second, SurfaceCmdView::Hide(h));
    lemma_either(first, second, SurfaceCmdView::SetFrame(h, r));
    lemma_either(first, second, SurfaceCmdView::Focus(h));
    lemma_either(first, second, SurfaceCmdView::Close(h));
}

proof fn lemma_display(v: RegistryView, i: int, n: int, h: usize, r: PixelRect)
    requires
        0 <= n <= v.tabs.len(),
        0 <= i,
    ensures
        display_cmds(v, i, n).contains(SurfaceCmdView::Show(h)) <==> i < n && runs(v.tabs[i], h),
        display_cmds(v, i, n).contains(SurfaceCmdView::Hide(h)) <==> exists|k: int|
            0 <= k < n && k != i && runs(#[trigger] v.tabs[k], h),
        display_cmds(v, i, n).contains(SurfaceCmdView::SetFrame(h, r)) <==> i < n && stands_at(
            v,
            v.tabs[i],
            h,
            r,
        ),
        display_cmds(v, i, n).contains(SurfaceCmdView::Focus(h)) <==> i < n && v.tabs[i].slot(
            v.tabs[i].focused,
        ) == Some(TabSlot::Spawned(h)),
        !display_cmds(v, i, n).contains(SurfaceCmdView::Close(h)),
    decreases n,
{
    if n > 0 {
        lemma_display(v, i, n - 1, h, r);
        let a = display_cmds(v, i, n - 1);
        let b = display_entry(v, v.tabs[n - 1], n - 1 == i);
        lemma_display_entry(v, v.tabs[n - 1], n - 1 == i, h, r);
        lemma_either(a, b, SurfaceCmdView::Show(h));
        lemma_either(a, b, SurfaceCmdView::Hide(h));
        lemma_either(a, b, SurfaceCmdView::SetFrame(h, r));
        lemma_either(a, b, SurfaceCmdView::Focus(h));
        lemma_either(a, b, SurfaceCmdView::Close(h));
        if exists|k: int| 0 <= k < n && k != i && runs(#[trigger] v.tabs[k], h) {
            let k = choose|k: int| 0 <= k < n && k != i && runs(#[trigger] v.tabs[k], h);
            if k < n - 1 {
                assert(runs(v.tabs[k], h));
            }
        }
    }
}

/// Showing a tab shows the terminals of both its panes, each where its pane
/// is, gives the keyboard to the focused one, hides every terminal of every
/// other tab, and ends none.
pub proof fn law_only_the_active_tab_is_shown(v: RegistryView, i: int, h: usize, r: PixelRect)
    requires
        0 <= i < v.tabs.len(),
    ensures
        ({
            let c = display_cmds(v, i, v.tabs.len() as int);
            &&& c.contains(SurfaceCmdView::Show(h)) <==> runs(v.tabs[i], h)
            &&& c.contains(SurfaceCmdView::SetFrame(h, r)) <==> stands_at(v, v.tabs[i], h, r)
            &&& c.contains(SurfaceCmdView::Focus(h)) <==> v.tabs[i].slot(v.tabs[i].focused) == Some(
                TabSlot::Spawned(h),
            )
            &&& c.contains(SurfaceCmdView::Hide(h)) <==> exists|k: int|
                0 <= k < v.tabs.len() && k != i && runs(#[trigger] v.tabs[k], h)
            &&& !c.contains(SurfaceCmdView::Close(h))
        }),
{
    lemma_display(v, i, v.tabs.len() as int, h, r);
}

/// The sidebar leans to the nearest live tab below the one it leaves, and only
/// where none is below to the nearest above.
pub proof fn law_the_lean_is_to_the_nearest(live: Seq<bool>, i: int, n: int)
    requires
        0 <= i < live.len(),
        0 <= n < live.len(),
        n != i,
        live[n],
    ensures
        live_neighbour(live, i) matches Some(m) && {
            ||| i < m && (i < n ==> m <= n)
            ||| m < i && n <= m
        },
{
    lemma_after(live, i + 1, n);
    lemma_before(live, i, n);
}

proof fn lemma_after(live: Seq<bool>, i: int, n: int)
    requires
        0 <= i <= live.len(),
        0 <= n < live.len(),
        live[n],
    ensures
        i <= live_after(live, i) <= live.len(),
        i <= n ==> live_after(live, i) <= n,
    decreases live.len() - i,
{
    if i < live.len() {
        lemma_after(live, i + 1, n);
    }
}

proof fn lemma_before(live: Seq<bool>, i: int, n: int)
    requires
        0 <= i <= live.len(),
        0 <= n < live.len(),
        live[n],
    ensures
        live_before(live, i) matches Some(m) ==> 0 <= m < i && (n < i ==> n <= m),
        n < i ==> live_before(live, i) is Some,
    decreases i,
{
    if i > 0 {
        lemma_before(live, i - 1, n);
    }
}

/// A second pane runs what its tab's split says, in the directory and the shell
/// of the first, and has nothing of the first's own startup.
pub proof fn law_a_second_pane_takes_after_the_first(v: RegistryView, id: Seq<char>)
    requires
        known(v.tabs, id),
        tab_at(v.tabs, id).secondary is None,
    ensures
        ({
            let was = tab_at(v.tabs, id);
            let is = tab_at(split_tab(v, id).tabs, id);
            &&& only_tabs_differ(v, split_tab(v, id))
            &&& others_alike(v.tabs, split_tab(v, id).tabs, id)
            &&& is.primary == was.primary
            &&& is.title == was.title
            &&& is.focused == was.focused
            &&& is.secondary matches Some(p) && {
                &&& p.slot is Cold
                &&& p.spec.id == id + "::2"@
                &&& p.spec.dir == was.primary.spec.dir
                &&& p.spec.shell == was.primary.spec.shell
                &&& p.spec.title == was.primary.spec.title
                &&& p.spec.split is None
                &&& p.spec.startup == if was.primary.spec.split is Some {
                    was.primary.spec.split->0.startup
                } else {
                    None
                }
            }
        }),
{
    lemma_position(v.tabs, id);
    lemma_position_alike(v.tabs, split_tab(v, id).tabs, id);
}

/// Closing a second pane ends its terminal and no other, and gives the keyboard
/// back to the first.
pub proof fn law_closing_a_second_pane_ends_its_terminal(v: RegistryView, id: Seq<char>, h: usize)
    requires
        known(v.tabs, id),
    ensures
        ({
            let w = secondary_closed(v, id);
            let was = tab_at(v.tabs, id);
            let is = tab_at(w.tabs, id);
            &&& others_alike(v.tabs, w.tabs, id)
            &&& w.active == v.active
            &&& is.primary == was.primary
            &&& is.secondary is None
            &&& was.secondary is Some ==> is.focused is Primary
            &&& was.slot(PaneIdx::Secondary) == Some(TabSlot::Spawned(h)) ==> w.outbox
                == v.outbox.push(SurfaceCmdView::Close(h))
            &&& !(was.slot(PaneIdx::Secondary) matches Some(TabSlot::Spawned(_))) ==> w.outbox
                == v.outbox
        }),
{
    let w = secondary_closed(v, id);
    lemma_position(v.tabs, id);
    lemma_position_alike(v.tabs, w.tabs, id);
    if tab_at(v.tabs, id).slot(PaneIdx::Secondary) == Some(TabSlot::Spawned(h)) {
        assert(w.outbox =~= v.outbox.push(SurfaceCmdView::Close(h)));
    }
    assert(v.outbox + Seq::<SurfaceCmdView>::empty() =~= v.outbox);
}

/// Moving the keyboard within a tab moves it to the pane that is named, and
/// only where the tab has that pane.
pub proof fn law_the_keyboard_goes_to_the_pane_named(v: RegistryView, id: Seq<char>, which: PaneIdx)
    requires
        known(v.tabs, id),
    ensures
        ({
            let w = focus_moved(v, id, which);
            let was = tab_at(v.tabs, id);
            let is = tab_at(w.tabs, id);
            &&& only_tabs_differ(v, w)
            &&& others_alike(v.tabs, w.tabs, id)
            &&& is.primary == was.primary && is.secondary == was.secondary
            &&& is.focused == if which is Secondary && was.secondary is None {
                was.focused
            } else {
                which
            }
        }),
{
    lemma_position(v.tabs, id);
    lemma_position_alike(v.tabs, focus_moved(v, id, which).tabs, id);
}

/// Starting a session runs the tab's own startup command in its first pane,
/// once, and only where that has a terminal.
pub proof fn law_a_session_starts_in_the_first_pane(v: RegistryView, id: Seq<char>)
    requires
        known(v.tabs, id),
    ensures
        start_cmds(v, id).len() <= 1,
        start_cmds(v, id).len() == 1 <==> {
            &&& tab_at(v.tabs, id).primary.spec.startup is Some
            &&& tab_at(v.tabs, id).primary.slot is Spawned
        },
        start_cmds(v, id).len() == 1 ==> start_cmds(v, id)[0] == SurfaceCmdView::Run(
            tab_at(v.tabs, id).primary.slot->Spawned_0,
            tab_at(v.tabs, id).primary.spec.startup->0,
        ),
{
}

/// A rectangle is told to the terminal of that pane of the active tab, where it
/// has one, and to no other; it is kept for those that come later.
pub proof fn law_a_rectangle_reaches_the_active_tab(
    v: RegistryView,
    which: PaneIdx,
    rect: PixelRect,
    id: Seq<char>,
    h: usize,
)
    requires
        v.active == Some(id),
        known(v.tabs, id),
    ensures
        framed(v, which, rect).tabs == v.tabs,
        framed(v, which, rect).active == v.active,
        tab_at(v.tabs, id).slot(which) == Some(TabSlot::Spawned(h)) ==> framed(
            v,
            which,
            rect,
        ).outbox == v.outbox.push(SurfaceCmdView::SetFrame(h, rect)),
        !(tab_at(v.tabs, id).slot(which) matches Some(TabSlot::Spawned(_))) ==> framed(
            v,
            which,
            rect,
        ).outbox == v.outbox,
        which is Primary ==> framed(v, which, rect).rect == rect && framed(
            v,
            which,
            rect,
        ).rect_secondary == v.rect_secondary,
        which is Secondary ==> framed(v, which, rect).rect_secondary == rect && framed(
            v,
            which,
            rect,
        ).rect == v.rect,
{
}

/// A tab that is removed is gone, with every terminal it had; the rest stay in
/// their order, and what is shown stays shown unless it was that tab.
pub proof fn law_a_removed_tab_is_gone(v: RegistryView, id: Seq<char>)
    requires
        known(v.tabs, id),
    ensures
        ({
            let w = removed(v, id);
            let at = position(v.tabs, id);
            &&& w.tabs.len() == v.tabs.len() - 1
            &&& forall|k: int| 0 <= k < at ==> #[trigger] w.tabs[k] == v.tabs[k]
            &&& forall|k: int| at <= k < w.tabs.len() ==> #[trigger] w.tabs[k] == v.tabs[k + 1]
            &&& v.active == Some(id) ==> w.active is None
            &&& v.active != Some(id) ==> w.active == v.active
            &&& w.rect == v.rect && w.rect_secondary == v.rect_secondary && w.window == v.window
            &&& forall|h: usize| runs(v.tabs[at], h) ==> #[trigger] w.outbox.contains(SurfaceCmdView::Close(h))
        }),
{
    lemma_position(v.tabs, id);
    let w = removed(v, id);
    let t = tab_at(v.tabs, id);
    assert forall|h: usize| runs(t, h) implies #[trigger] w.outbox.contains(
        SurfaceCmdView::Close(h),
    ) by {
        let c = crate::registry::close_entry_cmds(t);
        let a = crate::registry::close_cmds(t.primary.slot);
        let b = match t.secondary {
            Some(p) => crate::registry::close_cmds(p.slot),
            None => Seq::empty(),
        };
        if t.primary.slot == TabSlot::Spawned(h) {
            assert(a[0] == SurfaceCmdView::Close(h));
        } else {
            assert(b[0] == SurfaceCmdView::Close(h));
        }
        lemma_either(a, b, SurfaceCmdView::Close(h));
        lemma_either(v.outbox, c, SurfaceCmdView::Close(h));
    }
}

/// A tab that is added comes last, with what it was planned to run, split where
/// the plan says so. A terminal that it starts with is hidden, and what is
/// shown stays shown.
pub proof fn law_an_added_tab_comes_last(
    v: RegistryView,
    spec: TabSpecView,
    load: bool,
    p: Outcome,
    s: Outcome,
)
    requires
        !known(v.tabs, spec.id),
    ensures
        ({
            let w = added(v, spec, load, p, s);
            let n = v.tabs.len() as int;
            let t = w.tabs[n];
            &&& w.tabs.len() == n + 1
            &&& w.tabs.take(n) == v.tabs
            &&& w.active == v.active && w.rect == v.rect && w.rect_secondary == v.rect_secondary
            &&& t.id == spec.id
            &&& t.title == spec.title
            &&& t.primary.spec == spec
            &&& t.focused is Primary
            &&& t.primary.slot == if load && p is Ok {
                TabSlot::Spawned(p->Ok_0)
            } else {
                TabSlot::Cold
            }
            &&& t.secondary is Some <==> spec.split is Some
            &&& t.secondary matches Some(q) ==> {
                &&& q.spec.startup == spec.split->0.startup
                &&& q.spec.dir == spec.dir
                &&& q.spec.shell == spec.shell
                &&& q.slot == if load && p is Ok && s is Ok {
                    TabSlot::Spawned(s->Ok_0)
                } else {
                    TabSlot::Cold
                }
            }
            &&& forall|h: usize|
                runs(t, h) ==> #[trigger] w.outbox.contains(SurfaceCmdView::Hide(h))
        }),
{
    let w = added(v, spec, load, p, s);
    let a = appended(v, spec, load, p);
    let n = v.tabs.len() as int;
    let t = crate::registry::new_entry(spec, load, p);
    let pushed = v.tabs.push(t);
    lemma_position(v.tabs, spec.id);
    lemma_position(pushed, spec.id);
    assert(pushed[n].id == spec.id);
    if position(pushed, spec.id) < n {
        assert(pushed[position(pushed, spec.id)] == v.tabs[position(pushed, spec.id)]);
    }
    assert(position(pushed, spec.id) == n);
    assert(w.tabs.take(n) =~= v.tabs);
    let first = hide_cmds(t.primary.slot);
    assert forall|h: usize| runs(w.tabs[n], h) implies #[trigger] w.outbox.contains(
        SurfaceCmdView::Hide(h),
    ) by {
        if w.tabs[n].primary.slot == TabSlot::Spawned(h) {
            assert(first[0] == SurfaceCmdView::Hide(h));
            lemma_either(v.outbox, first, SurfaceCmdView::Hide(h));
            assert(a.outbox.contains(SurfaceCmdView::Hide(h)));
            let k = choose|k: int| 0 <= k < a.outbox.len() && a.outbox[k] == SurfaceCmdView::Hide(h);
            assert(w.outbox[k] == SurfaceCmdView::Hide(h));
        } else {
            assert(w.outbox[a.outbox.len() as int] == SurfaceCmdView::Hide(h));
        }
    }
}

/// Popping a tab out takes every terminal it has here from the window, and
/// hands out exactly those; taking surfaces back puts them into the panes they
/// came from.
pub proof fn law_popping_out_hands_the_terminals_out(v: RegistryView, id: Seq<char>)
    requires
        known(v.tabs, id),
        orderly(v.tabs),
    ensures
        ({
            let w = detached(v, id);
            let was = tab_at(v.tabs, id);
            let is = tab_at(w.tabs, id);
            &&& only_tabs_differ(v, w)
            &&& others_alike(v.tabs, w.tabs, id)
            &&& detachable(v, id) is Some <==> was.primary.slot is Spawned
            &&& detachable(v, id) matches Some(out) ==> {
                &&& was.primary.slot == TabSlot::Spawned(out.0)
                &&& out.1 matches Some(s) ==> was.slot(PaneIdx::Secondary) == Some(
                    TabSlot::Spawned(s),
                )
                &&& out.1 is None ==> !(was.slot(PaneIdx::Secondary) matches Some(
                    TabSlot::Spawned(_),
                ))
                &&& is.primary.slot is Detached
                &&& out.1 is Some ==> is.slot(PaneIdx::Secondary) == Some(TabSlot::Detached)
            }
            &&& forall|h: usize| !runs(is, h)
        }),
{
    lemma_position(v.tabs, id);
    lemma_position_alike(v.tabs, detached(v, id).tabs, id);
    assert(crate::registry_laws::orderly_entry(tab_at(v.tabs, id)));
}

/// Surfaces that come back to a tab are the ones it has from then on; where no
/// second one comes back, a second pane that was popped out is gone.
pub proof fn law_surfaces_come_back_to_their_panes(
    v: RegistryView,
    id: Seq<char>,
    primary: usize,
    secondary: Option<usize>,
)
    requires
        attachable(v, id, secondary),
    ensures
        ({
            let w = attached(v, id, primary, secondary);
            let was = tab_at(v.tabs, id);
            let is = tab_at(w.tabs, id);
            &&& only_tabs_differ(v, w)
            &&& others_alike(v.tabs, w.tabs, id)
            &&& is.primary.slot == TabSlot::Spawned(primary)
            &&& is.primary.spec == was.primary.spec
            &&& secondary matches Some(s) ==> is.slot(PaneIdx::Secondary) == Some(
                TabSlot::Spawned(s),
            )
            &&& secondary is None && was.slot(PaneIdx::Secondary) == Some(TabSlot::Detached)
                ==> is.secondary is None && is.focused is Primary
            &&& secondary is None && was.slot(PaneIdx::Secondary) != Some(TabSlot::Detached)
                ==> is.secondary == was.secondary && is.focused == was.focused
        }),
{
    lemma_position(v.tabs, id);
    lemma_position_alike(v.tabs, attached(v, id, primary, secondary).tabs, id);
}

/// A tab takes surfaces back exactly where it has none of its own in the panes
/// that they would go to.
pub proof fn law_surfaces_never_displace_others(
    v: RegistryView,
    id: Seq<char>,
    secondary: Option<usize>,
)
    ensures
        attachable(v, id, secondary) <==> {
            &&& exists|k: int| 0 <= k < v.tabs.len() && (#[trigger] v.tabs[k]).id == id
            &&& !has_terminal(tab_at(v.tabs, id), PaneIdx::Primary)
            &&& secondary is Some ==> !has_terminal(tab_at(v.tabs, id), PaneIdx::Secondary)
        },
{
    lemma_position(v.tabs, id);
    if known(v.tabs, id) {
        assert(v.tabs[position(v.tabs, id)].id == id);
    }
}

/// A signal comes from the first tab that has its surface, and from none where
/// no tab has it.
pub proof fn law_a_surface_is_found_where_it_runs(tabs: Seq<TabEntryView>, h: usize)
    ensures
        match located(tabs, h) {
            Some((id, which)) => exists|k: int|
                0 <= k < tabs.len() && (#[trigger] tabs[k]).id == id && tabs[k].slot(which) == Some(
                    TabSlot::Spawned(h),
                ),
            None => forall|k: int| 0 <= k < tabs.len() ==> !runs(#[trigger] tabs[k], h),
        },
{
    lemma_found(tabs, h, 0);
}

proof fn lemma_found(tabs: Seq<TabEntryView>, h: usize, i: int)
    requires
        0 <= i,
    ensures
        match located_from(tabs, h, i) {
            Some((id, which)) => exists|k: int|
                i <= k < tabs.len() && (#[trigger] tabs[k]).id == id && tabs[k].slot(which) == Some(
                    TabSlot::Spawned(h),
                ),
            None => forall|k: int| i <= k < tabs.len() ==> !runs(#[trigger] tabs[k], h),
        },
    decreases tabs.len() - i,
{
    if i < tabs.len() {
        lemma_found(tabs, h, i + 1);
        if tabs[i].slot(PaneIdx::Primary) == Some(TabSlot::Spawned(h)) || tabs[i].slot(
            PaneIdx::Secondary,
        ) == Some(TabSlot::Spawned(h)) {
            assert(tabs[i].id == tabs[i].id);
        } else if located_from(tabs, h, i + 1) is Some {
            let at = located_from(tabs, h, i + 1)->0;
            let k = choose|k: int|
                i + 1 <= k < tabs.len() && (#[trigger] tabs[k]).id == at.0 && tabs[k].slot(at.1)
                    == Some(TabSlot::Spawned(h));
            assert(tabs[k].id == at.0);
        }
    }
}

proof fn lemma_ranked_keeps(
    tabs: Seq<TabEntryView>,
    order: Seq<Seq<char>>,
    k: int,
    a: int,
    b: int,
) -> (at: (int, int))
    requires
        0 <= a < b < tabs.len(),
        rank(order, tabs[a].id) == k,
        rank(order, tabs[b].id) == k,
    ensures
        0 <= at.0 < at.1 < ranked(tabs, order, k).len(),
        ranked(tabs, order, k)[at.0] == tabs[a],
        ranked(tabs, order, k)[at.1] == tabs[b],
    decreases tabs.len(),
{
    let rest = tabs.drop_last();
    if b < rest.len() {
        lemma_ranked_keeps(rest, order, k, a, b)
    } else {
        let i = lemma_ranked_has(rest, order, k, a);
        (i, ranked(rest, order, k).len() as int)
    }
}

proof fn lemma_ranked_has(
    tabs: Seq<TabEntryView>,
    order: Seq<Seq<char>>,
    k: int,
    a: int,
) -> (at: int)
    requires
        0 <= a < tabs.len(),
        rank(order, tabs[a].id) == k,
    ensures
        0 <= at < ranked(tabs, order, k).len(),
        ranked(tabs, order, k)[at] == tabs[a],
    decreases tabs.len(),
{
    let rest = tabs.drop_last();
    if a < rest.len() {
        lemma_ranked_has(rest, order, k, a)
    } else {
        ranked(rest, order, k).len() as int
    }
}

/// Tabs that the order does not tell apart, those that it does not name among
/// them, keep the order they had.
pub proof fn law_reordering_is_stable(v: RegistryView, order: Seq<Seq<char>>, a: int, b: int)
    requires
        0 <= a < b < v.tabs.len(),
        rank(order, v.tabs[a].id) == rank(order, v.tabs[b].id),
    ensures
        exists|i: int, j: int|
            0 <= i < j < reordered(v, order).tabs.len() && #[trigger] reordered(v, order).tabs[i]
                == v.tabs[a] && #[trigger] reordered(v, order).tabs[j] == v.tabs[b],
        reordered(v, order).active == v.active,
        reordered(v, order).outbox == v.outbox,
{
    let k = rank(order, v.tabs[a].id);
    lemma_rank_range(order, v.tabs[a].id);
    let at = lemma_ranked_keeps(v.tabs, order, k, a, b);
    let n = order.len() as int + 1;
    lemma_upto_holds(v.tabs, order, k, n, at.0);
    lemma_upto_holds(v.tabs, order, k, n, at.1);
    let off = ranked_upto(v.tabs, order, k).len();
    let r = reordered(v, order).tabs;
    assert(r[off + at.0] == v.tabs[a] && r[off + at.1] == v.tabs[b]);
}

proof fn lemma_rank_range(order: Seq<Seq<char>>, id: Seq<char>)
    ensures
        0 <= rank(order, id) <= order.len(),
{
    crate::manager::lemma_rank(order, id);
}

proof fn lemma_upto_holds(
    tabs: Seq<TabEntryView>,
    order: Seq<Seq<char>>,
    k: int,
    n: int,
    i: int,
)
    requires
        0 <= k < n,
        0 <= i < ranked(tabs, order, k).len(),
    ensures
        ranked_upto(tabs, order, k).len() + i < ranked_upto(tabs, order, n).len(),
        ranked_upto(tabs, order, n)[ranked_upto(tabs, order, k).len() + i] == ranked(
            tabs,
            order,
            k,
        )[i],
    decreases n,
{
    if k < n - 1 {
        lemma_upto_holds(tabs, order, k, n - 1, i);
    }
}

/// While nothing is shown a rectangle is kept, and told to nobody.
pub proof fn law_a_rectangle_is_kept_for_later(v: RegistryView, which: PaneIdx, rect: PixelRect)
    requires
        v.active is None || !known(v.tabs, v.active->0),
    ensures
        framed(v, which, rect).tabs == v.tabs,
        framed(v, which, rect).active == v.active,
        framed(v, which, rect).outbox == v.outbox,
        which is Primary ==> framed(v, which, rect).rect == rect && framed(
            v,
            which,
            rect,
        ).rect_secondary == v.rect_secondary,
        which is Secondary ==> framed(v, which, rect).rect_secondary == rect && framed(
            v,
            which,
            rect,
        ).rect == v.rect,
{
}

proof fn lemma_closings_are(cmds: Seq<SurfaceCmdView>, h: usize)
    ensures
        closings(cmds).contains(h) <==> cmds.contains(SurfaceCmdView::Close(h)),
    decreases cmds.len(),
{
    if cmds.len() > 0 {
        let rest = cmds.drop_last();
        lemma_closings_are(rest, h);
        let q = closings(rest);
        let r = closings(cmds);
        assert(cmds[cmds.len() - 1] == cmds.last());
        if q.contains(h) {
            let k = choose|k: int| 0 <= k < q.len() && q[k] == h;
            assert(r[k] == h);
            let j = choose|j: int| 0 <= j < rest.len() && rest[j] == SurfaceCmdView::Close(h);
            assert(cmds[j] == SurfaceCmdView::Close(h));
        }
        if cmds.last() == SurfaceCmdView::Close(h) {
            assert(r[q.len() as int] == h);
        }
        if r.contains(h) {
            let k = choose|k: int| 0 <= k < r.len() && r[k] == h;
            if k < q.len() {
                assert(q[k] == h);
            }
        }
        if cmds.contains(SurfaceCmdView::Close(h)) {
            let j = choose|j: int| 0 <= j < cmds.len() && cmds[j] == SurfaceCmdView::Close(h);
            if j < rest.len() {
                assert(rest[j] == SurfaceCmdView::Close(h));
            }
        }
    }
}

/// Who starts a terminal is told of exactly the terminals that are to end and
/// have not been ended yet.
pub proof fn law_what_ends_is_told_before_a_start(v: RegistryView, i: int, which: PaneIdx, h: usize)
    requires
        request_at(v, i, which) is Some,
    ensures
        request_at(v, i, which)->0.ended.contains(h) <==> v.outbox.contains(
            SurfaceCmdView::Close(h),
        ),
{
    lemma_closings_are(v.outbox, h);
}

/// Once what stands for popped-out terminals is cleared, no pane of the tab is
/// popped out; what it has here, and every other tab, stays.
pub proof fn law_cleared_tabs_are_not_out(v: RegistryView, id: Seq<char>)
    requires
        known(v.tabs, id),
    ensures
        ({
            let w = placeholders_cleared(v, id);
            let was = tab_at(v.tabs, id);
            let is = tab_at(w.tabs, id);
            &&& only_tabs_differ(v, w)
            &&& others_alike(v.tabs, w.tabs, id)
            &&& is.primary.spec == was.primary.spec
            &&& is.primary.slot == if was.primary.slot is Detached {
                TabSlot::Cold
            } else {
                was.primary.slot
            }
            &&& was.secondary is None ==> is.secondary is None
            &&& was.secondary matches Some(p) ==> is.secondary is Some && is.secondary->0.slot
                == if p.slot is Detached {
                TabSlot::Cold
            } else {
                p.slot
            }
            &&& is.focused == was.focused
        }),
{
    lemma_position(v.tabs, id);
    lemma_position_alike(v.tabs, placeholders_cleared(v, id).tabs, id);
}

/// Unloading a tab leaves each pane without a terminal here, and what is popped
/// out stays out; a tab that is configured to be split has its second pane
/// back, which the first may have been left without.
pub proof fn law_an_unloaded_tab_is_as_it_began(v: RegistryView, id: Seq<char>)
    requires
        known(v.tabs, id),
    ensures
        ({
            let w = surfaces_closed(v, id);
            let was = tab_at(v.tabs, id);
            let is = tab_at(w.tabs, id);
            &&& others_alike(v.tabs, w.tabs, id)
            &&& w.active == v.active
            &&& is.title == was.title && is.focused == was.focused
            &&& is.primary.spec == was.primary.spec
            &&& is.primary.slot == if was.primary.slot is Spawned {
                TabSlot::Cold
            } else {
                was.primary.slot
            }
            &&& was.secondary matches Some(p) ==> is.secondary is Some && is.secondary->0.slot
                == if p.slot is Spawned {
                TabSlot::Cold
            } else {
                p.slot
            }
            &&& was.secondary is None ==> (is.secondary is Some <==> was.primary.spec.split is Some)
        }),
{
    lemma_position(v.tabs, id);
    lemma_position_alike(v.tabs, surfaces_closed(v, id).tabs, id);
}

proof fn lemma_framed_first(v: RegistryView, i: int, n: int, which: PaneIdx, h: usize) -> (at: int)
    requires
        0 <= i < n <= v.tabs.len(),
        v.tabs[i].slot(which) == Some(TabSlot::Spawned(h)),
    ensures
        0 <= at,
        at + 1 < display_cmds(v, i, n).len(),
        display_cmds(v, i, n)[at] == SurfaceCmdView::SetFrame(
            h,
            if which is Primary {
                v.rect
            } else {
                v.rect_secondary
            },
        ),
        display_cmds(v, i, n)[at + 1] == SurfaceCmdView::Show(h),
        v.tabs[i].focused == which ==> at + 2 < display_cmds(v, i, n).len() && display_cmds(
            v,
            i,
            n,
        )[at + 2] == SurfaceCmdView::Focus(h),
    decreases n,
{
    let before = display_cmds(v, i, n - 1);
    if i < n - 1 {
        lemma_framed_first(v, i, n - 1, which, h)
    } else {
        let t = v.tabs[i];
        let e = display_entry(v, t, true);
        let first = show_cmds(t.primary.slot, v.rect, t.focused is Primary);
        match which {
            PaneIdx::Primary => {
                assert(e[0] == first[0] && e[1] == first[1]);
                if t.focused is Primary {
                    assert(e[2] == first[2]);
                }
                before.len() as int
            },
            PaneIdx::Secondary => {
                let second = show_cmds(
                    t.secondary->0.slot,
                    v.rect_secondary,
                    t.focused is Secondary,
                );
                let k = first.len() as int;
                assert(e[k] == second[0] && e[k + 1] == second[1]);
                if t.focused is Secondary {
                    assert(e[k + 2] == second[2]);
                }
                (before.len() + k) as int
            },
        }
    }
}

/// A terminal is put in its place before it is shown, and gets the keyboard
/// only then.
pub proof fn law_terminals_are_placed_before_they_are_shown(
    v: RegistryView,
    i: int,
    which: PaneIdx,
    h: usize,
    r: PixelRect,
    keyboard: bool,
)
    requires
        0 <= i < v.tabs.len(),
        v.tabs[i].slot(which) == Some(TabSlot::Spawned(h)),
        which is Primary ==> r == v.rect,
        which is Secondary ==> r == v.rect_secondary,
        keyboard == (v.tabs[i].focused == which),
    ensures
        exists|at: int| #[trigger]
            is_placed(
                display_cmds(v, i, v.tabs.len() as int),
                at,
                h,
                r,
                keyboard,
            ),
{
    let at = lemma_framed_first(v, i, v.tabs.len() as int, which, h);
    assert(is_placed(
        display_cmds(v, i, v.tabs.len() as int),
        at,
        h,
        r,
        keyboard,
    ));
}

/// Whether a terminal is placed by the command at `at`, shown by the next, and
/// given the keyboard, where it is to have it, by the one behind that.
pub open spec fn is_placed(
    c: Seq<SurfaceCmdView>,
    at: int,
    h: usize,
    r: PixelRect,
    keyboard: bool,
) -> bool {
    &&& 0 <= at
    &&& at + 1 < c.len()
    &&& c[at] == SurfaceCmdView::SetFrame(h, r)
    &&& c[at + 1] == SurfaceCmdView::Show(h)
    &&& keyboard ==> at + 2 < c.len() && c[at + 2] == SurfaceCmdView::Focus(h)
}

/// Activating a tab shows every terminal that it then has, gives the keyboard
/// to the focused one, and hides those of every other tab; what was to be said
/// before is said first.
pub proof fn law_activating_shows_the_tab(
    v: RegistryView,
    id: Seq<char>,
    p: Outcome,
    s: Outcome,
    h: usize,
    k: int,
)
    requires
        known(v.tabs, id),
    ensures
        ({
            let w = activated(v, id, p, s);
            let at = position(v.tabs, id);
            &&& w.outbox.len() >= v.outbox.len()
            &&& w.outbox.take(v.outbox.len() as int) == v.outbox
            &&& runs(w.tabs[at], h) ==> w.outbox.contains(SurfaceCmdView::Show(h))
            &&& w.tabs[at].slot(w.tabs[at].focused) == Some(TabSlot::Spawned(h))
                ==> w.outbox.contains(SurfaceCmdView::Focus(h))
            &&& 0 <= k < w.tabs.len() && k != at && runs(w.tabs[k], h) ==> w.outbox.contains(
                SurfaceCmdView::Hide(h),
            )
        }),
{
    lemma_position(v.tabs, id);
    let at = position(v.tabs, id);
    let live = live_at(v, at, p, s);
    let w = activated(v, id, p, s);
    let c = display_cmds(live, at, live.tabs.len() as int);
    assert(w.outbox == v.outbox + c);
    assert(w.outbox.take(v.outbox.len() as int) =~= v.outbox);
    lemma_display(live, at, live.tabs.len() as int, h, live.rect);
    lemma_either(v.outbox, c, SurfaceCmdView::Show(h));
    lemma_either(v.outbox, c, SurfaceCmdView::Focus(h));
    lemma_either(v.outbox, c, SurfaceCmdView::Hide(h));
    if 0 <= k < w.tabs.len() && k != at && runs(w.tabs[k], h) {
        assert(runs(live.tabs[k], h));
    }
}

} // verus!
