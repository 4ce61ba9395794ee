//! What every operation on a registry keeps, and what one undoes of another.

use crate::reconcile::TabMetaView;
use crate::registry::{
    activated, added, appended, attachable, attached, cleared_entry, close_cmds, close_entry_cmds,
    closings, detachable, detached, display_cmds, display_entry, emptied, focus_moved, framed,
    known, leaned, lemma_position, live_after, live_at, live_before, live_neighbour, located,
    located_from, new_entry, placeholders_cleared, position, rank, rank_from, ranked, ranked_upto,
    rect_of, removed, reordered, request_at, secondary_closed, settled_at, split_tab,
    surfaces_closed, tab_at, unloaded_entry, with_meta, Outcome, PaneIdx, PixelRect, RegistryView,
    SurfaceCmdView, TabEntryView, TabSlot,
};
use crate::surface::TabSpecView;
use vstd::prelude::*;

verus! {

/// A tab is orderly: only a pane that is there has the keyboard, and a second
/// pane has its surface wherever the first has its own.
pub open spec fn orderly_entry(t: TabEntryView) -> bool {
    &&& t.focused is Secondary ==> t.secondary is Some
    &&& t.secondary matches Some(p) ==> {
        &&& p.slot is Spawned ==> t.primary.slot is Spawned
        &&& p.slot is Detached ==> t.primary.slot is Detached
    }
}

/// Every tab is orderly.
pub open spec fn orderly(tabs: Seq<TabEntryView>) -> bool {
    forall|i: int| 0 <= i < tabs.len() ==> orderly_entry(#[trigger] tabs[i])
}

/// A tab can be split, closed to one pane, or given the keyboard without
/// becoming disorderly.
pub proof fn law_panes_stay_orderly(v: RegistryView, id: Seq<char>, which: PaneIdx)
    requires
        orderly(v.tabs),
    ensures
        orderly(split_tab(v, id).tabs),
        orderly(secondary_closed(v, id).tabs),
        orderly(focus_moved(v, id, which).tabs),
{
    lemma_position(v.tabs, id);
}

proof fn lemma_settled_orderly(v: RegistryView, i: int, which: PaneIdx, o: Outcome)
    requires
        orderly(v.tabs),
        0 <= i < v.tabs.len(),
    ensures
        orderly(settled_at(v, i, which, o).tabs),
        settled_at(v, i, which, o).tabs.len() == v.tabs.len(),
{
    assert(orderly_entry(v.tabs[i]));
    let w = settled_at(v, i, which, o);
    assert forall|k: int| 0 <= k < w.tabs.len() implies orderly_entry(#[trigger] w.tabs[k]) by {
        assert(orderly_entry(v.tabs[k]));
    }
}

/// Spawning and showing tabs keeps a registry orderly, however the spawns come
/// out.
pub proof fn law_activating_stays_orderly(
    v: RegistryView,
    id: Seq<char>,
    i: int,
    p: Outcome,
    s: Outcome,
)
    requires
        orderly(v.tabs),
        0 <= i < v.tabs.len(),
    ensures
        orderly(live_at(v, i, p, s).tabs),
        orderly(activated(v, id, p, s).tabs),
        orderly(leaned(v, i, p, s).tabs),
{
    lemma_settled_orderly(v, i, PaneIdx::Primary, p);
    lemma_settled_orderly(settled_at(v, i, PaneIdx::Primary, p), i, PaneIdx::Secondary, s);
    assert forall|w: RegistryView, x: Seq<char>| orderly(w.tabs) implies orderly(
        (#[trigger] activated(w, x, p, s)).tabs,
    ) by {
        lemma_position(w.tabs, x);
        if known(w.tabs, x) {
            let k = position(w.tabs, x);
            lemma_settled_orderly(w, k, PaneIdx::Primary, p);
            lemma_settled_orderly(
                settled_at(w, k, PaneIdx::Primary, p),
                k,
                PaneIdx::Secondary,
                s,
            );
        }
    }
}

/// Adding a tab keeps a registry orderly, however the spawns come out.
pub proof fn law_adding_stays_orderly(
    v: RegistryView,
    spec: TabSpecView,
    load: bool,
    p: Outcome,
    s: Outcome,
)
    requires
        orderly(v.tabs),
    ensures
        orderly(added(v, spec, load, p, s).tabs),
{
    let t = new_entry(spec, load, p);
    let pushed = v.tabs.push(t);
    assert(orderly(pushed));
    lemma_position(pushed, spec.id);
    let a = appended(v, spec, load, p);
    assert(orderly(a.tabs));
    lemma_settled_orderly(a, v.tabs.len() as int, PaneIdx::Secondary, s);
}

/// Unloading a tab, and clearing what stands for its popped-out surfaces, keep
/// a registry orderly.
pub proof fn law_unloading_stays_orderly(v: RegistryView, id: Seq<char>)
    requires
        orderly(v.tabs),
    ensures
        orderly(surfaces_closed(v, id).tabs),
        orderly(placeholders_cleared(v, id).tabs),
{
    lemma_position(v.tabs, id);
    if known(v.tabs, id) {
        assert(orderly_entry(tab_at(v.tabs, id)));
        assert(orderly_entry(unloaded_entry(tab_at(v.tabs, id), id)));
        assert(orderly_entry(cleared_entry(tab_at(v.tabs, id))));
    }
}

/// Popping a tab out and taking it back keep a registry orderly.
pub proof fn law_moving_stays_orderly(
    v: RegistryView,
    id: Seq<char>,
    primary: usize,
    secondary: Option<usize>,
)
    requires
        orderly(v.tabs),
    ensures
        orderly(detached(v, id).tabs),
        attachable(v, id, secondary) ==> orderly(attached(v, id, primary, secondary).tabs),
{
    lemma_position(v.tabs, id);
    if known(v.tabs, id) {
        assert(orderly_entry(tab_at(v.tabs, id)));
    }
}

proof fn lemma_ranked_elements(tabs: Seq<TabEntryView>, order: Seq<Seq<char>>, k: int)
    ensures
        forall|i: int|
            0 <= i < ranked(tabs, order, k).len() ==> {
                &&& tabs.contains(#[trigger] ranked(tabs, order, k)[i])
                &&& rank(order, ranked(tabs, order, k)[i].id) == k
            },
    decreases tabs.len(),
{
    if tabs.len() > 0 {
        let rest = tabs.drop_last();
        lemma_ranked_elements(rest, order, k);
        let r = ranked(tabs, order, k);
        let q = ranked(rest, order, k);
        assert forall|i: int| 0 <= i < r.len() implies {
            &&& tabs.contains(#[trigger] r[i])
            &&& rank(order, r[i].id) == k
        } by {
            if i < q.len() {
                assert(r[i] == q[i]);
                assert(rest.contains(q[i]));
                let j = choose|j: int| 0 <= j < rest.len() && rest[j] == q[i];
                assert(tabs[j] == r[i]);
            } else {
                assert(tabs[tabs.len() - 1] == r[i]);
            }
        }
    }
}

proof fn lemma_ranked_upto_elements(tabs: Seq<TabEntryView>, order: Seq<Seq<char>>, k: int)
    requires
        k >= 0,
    ensures
        forall|i: int|
            0 <= i < ranked_upto(tabs, order, k).len() ==> {
                &&& tabs.contains(#[trigger] ranked_upto(tabs, order, k)[i])
                &&& rank(order, ranked_upto(tabs, order, k)[i].id) < k
            },
        forall|i: int, j: int|
            0 <= i < j < ranked_upto(tabs, order, k).len() ==> rank(
                order,
                (#[trigger] ranked_upto(tabs, order, k)[i]).id,
            ) <= rank(order, (#[trigger] ranked_upto(tabs, order, k)[j]).id),
    decreases k,
{
    if k > 0 {
        lemma_ranked_upto_elements(tabs, order, k - 1);
        lemma_ranked_elements(tabs, order, k - 1);
        let a = ranked_upto(tabs, order, k - 1);
        let b = ranked(tabs, order, k - 1);
        let r = ranked_upto(tabs, order, k);
        assert forall|i: int| 0 <= i < r.len() implies {
            &&& tabs.contains(#[trigger] r[i])
            &&& rank(order, r[i].id) < k
        } by {
            if i < a.len() {
                assert(r[i] == a[i]);
            } else {
                assert(r[i] == b[i - a.len()]);
            }
        }
        assert forall|i: int, j: int| 0 <= i < j < r.len() implies rank(
            order,
            (#[trigger] r[i]).id,
        ) <= rank(order, (#[trigger] r[j]).id) by {
            if j < a.len() {
                assert(r[i] == a[i] && r[j] == a[j]);
            } else {
                assert(r[j] == b[j - a.len()]);
                if i < a.len() {
                    assert(r[i] == a[i]);
                } else {
                    assert(r[i] == b[i - a.len()]);
                }
            }
        }
    }
}

/// Metadata, rectangles, removing, reordering and closing keep a registry
/// orderly.
pub proof fn law_arranging_stays_orderly(
    v: RegistryView,
    id: Seq<char>,
    meta: TabMetaView,
    tree: bool,
    path: Seq<Seq<char>>,
    which: PaneIdx,
    rect: PixelRect,
    order: Seq<Seq<char>>,
)
    requires
        orderly(v.tabs),
    ensures
        orderly(with_meta(v, id, meta, tree, path).tabs),
        orderly(framed(v, which, rect).tabs),
        orderly(removed(v, id).tabs),
        orderly(reordered(v, order).tabs),
        orderly(emptied(v).tabs),
{
    lemma_position(v.tabs, id);
    if known(v.tabs, id) {
        assert(orderly_entry(tab_at(v.tabs, id)));
    }
    let r = reordered(v, order).tabs;
    lemma_ranked_upto_elements(v.tabs, order, order.len() as int + 1);
    assert forall|i: int| 0 <= i < r.len() implies orderly_entry(#[trigger] r[i]) by {
        assert(v.tabs.contains(r[i]));
    }
    let g = removed(v, id).tabs;
    assert forall|i: int| 0 <= i < g.len() implies orderly_entry(#[trigger] g[i]) by {
        if known(v.tabs, id) {
            if i < position(v.tabs, id) {
                assert(g[i] == v.tabs[i]);
            } else {
                assert(g[i] == v.tabs[i + 1]);
            }
        }
    }
}

/// Splitting a tab twice is splitting it once: there is never a third pane.
pub proof fn law_split_is_idempotent(v: RegistryView, id: Seq<char>)
    ensures
        split_tab(split_tab(v, id), id) == split_tab(v, id),
{
    lemma_position(v.tabs, id);
    if known(v.tabs, id) {
        let w = split_tab(v, id);
        lemma_position(w.tabs, id);
        let i = position(v.tabs, id);
        let j = position(w.tabs, id);
        assert(w.tabs[i].id == id);
        if j < i {
            assert(w.tabs[j] == v.tabs[j]);
        }
        assert(split_tab(w, id).tabs =~= w.tabs);
    }
}

/// Closing the second pane of a tab that was just split leaves it as it was.
pub proof fn law_close_undoes_split(v: RegistryView, id: Seq<char>)
    requires
        orderly(v.tabs),
        known(v.tabs, id),
        tab_at(v.tabs, id).secondary is None,
    ensures
        secondary_closed(split_tab(v, id), id) == v,
{
    lemma_position(v.tabs, id);
    let w = split_tab(v, id);
    lemma_position(w.tabs, id);
    let i = position(v.tabs, id);
    let j = position(w.tabs, id);
    assert(w.tabs[i].id == id);
    if j < i {
        assert(w.tabs[j] == v.tabs[j]);
    }
    assert(orderly_entry(v.tabs[i]));
    let r = secondary_closed(w, id);
    assert(r.tabs =~= v.tabs);
    assert(r.outbox =~= v.outbox);
}

/// A tab that is popped out and taken back, with the surfaces it gave up, is
/// exactly as it was: its terminals were never touched.
pub proof fn law_attach_undoes_detach(v: RegistryView, id: Seq<char>)
    requires
        orderly(v.tabs),
        detachable(v, id) is Some,
    ensures
        ({
            let (p, s) = detachable(v, id)->0;
            &&& attachable(detached(v, id), id, s)
            &&& attached(detached(v, id), id, p, s) == v
        }),
{
    lemma_position(v.tabs, id);
    let w = detached(v, id);
    lemma_position(w.tabs, id);
    let i = position(v.tabs, id);
    let j = position(w.tabs, id);
    assert(w.tabs[i].id == id);
    if j < i {
        assert(w.tabs[j] == v.tabs[j]);
    }
    assert(orderly_entry(v.tabs[i]));
    let (p, s) = detachable(v, id)->0;
    assert(attached(w, id, p, s).tabs =~= v.tabs);
}

/// A tab that is popped out is never popped out again, and never spawns a
/// second set of surfaces where it came from.
pub proof fn law_detached_tabs_stay_put(v: RegistryView, id: Seq<char>, p: Outcome, s: Outcome)
    requires
        orderly(v.tabs),
        known(v.tabs, id),
        tab_at(v.tabs, id).primary.slot is Detached,
    ensures
        detachable(v, id) is None,
        detached(v, id) == v,
        live_at(v, position(v.tabs, id), p, s) == v,
{
    lemma_position(v.tabs, id);
}

/// Unloading a tab leaves it no surface here, closes each one it had exactly
/// once, and touches no other tab.
pub proof fn law_unload_frees_the_tab(v: RegistryView, id: Seq<char>)
    requires
        known(v.tabs, id),
    ensures
        ({
            let w = surfaces_closed(v, id);
            let i = position(v.tabs, id);
            &&& !w.tabs[i].is_live()
            &&& w.outbox == v.outbox + close_entry_cmds(v.tabs[i])
            &&& w.tabs.len() == v.tabs.len()
            &&& forall|k: int|
                0 <= k < v.tabs.len() && k != i ==> #[trigger] w.tabs[k] == v.tabs[k]
            &&& v.tabs[i].primary.spec.split is Some ==> w.tabs[i].secondary is Some
        }),
{
    lemma_position(v.tabs, id);
}

/// Every surface of the registry stands in one pane only.
pub open spec fn surfaces_apart(tabs: Seq<TabEntryView>) -> bool {
    forall|i: int, j: int, a: PaneIdx, b: PaneIdx|
        #![trigger tabs[i].slot(a), tabs[j].slot(b)]
        0 <= i < tabs.len() && 0 <= j < tabs.len() && (i != j || a != b) && tabs[i].slot(a) is Some
            && tabs[i].slot(a)->0 is Spawned ==> tabs[j].slot(b) != tabs[i].slot(a)
}

proof fn lemma_located(tabs: Seq<TabEntryView>, h: usize, i: int, which: PaneIdx, from: int)
    requires
        surfaces_apart(tabs),
        0 <= from <= i < tabs.len(),
        tabs[i].slot(which) == Some(TabSlot::Spawned(h)),
    ensures
        located_from(tabs, h, from) == Some((tabs[i].id, which)),
    decreases i - from,
{
    let other = if which is Primary {
        PaneIdx::Secondary
    } else {
        PaneIdx::Primary
    };
    if from < i {
        assert(tabs[from].slot(PaneIdx::Primary) != tabs[i].slot(which));
        assert(tabs[from].slot(PaneIdx::Secondary) != tabs[i].slot(which));
        lemma_located(tabs, h, i, which, from + 1);
    } else {
        assert(tabs[i].slot(other) != tabs[i].slot(which));
    }
}

/// The signal of any surface, of a second pane too, finds its way to the tab
/// and the pane that it stands in.
pub proof fn law_every_surface_is_routed(
    tabs: Seq<TabEntryView>,
    h: usize,
    i: int,
    which: PaneIdx,
)
    requires
        surfaces_apart(tabs),
        0 <= i < tabs.len(),
        tabs[i].slot(which) == Some(TabSlot::Spawned(h)),
    ensures
        located(tabs, h) == Some((tabs[i].id, which)),
{
    lemma_located(tabs, h, i, which, 0);
}

proof fn lemma_display_focus(v: RegistryView, i: int, n: int, h: usize)
    requires
        0 <= i < v.tabs.len(),
        0 <= n <= v.tabs.len(),
        display_cmds(v, i, n).contains(SurfaceCmdView::Focus(h)),
    ensures
        v.tabs[i].slot(v.tabs[i].focused) == Some(TabSlot::Spawned(h)),
    decreases n,
{
    let c = SurfaceCmdView::Focus(h);
    if n > 0 {
        let a = display_cmds(v, i, n - 1);
        let b = display_entry(v, v.tabs[n - 1], n - 1 == i);
        let k = choose|k: int| 0 <= k < (a + b).len() && (a + b)[k] == c;
        if k < a.len() {
            assert(a[k] == c);
            lemma_display_focus(v, i, n - 1, h);
        } else {
            assert(b[k - a.len()] == c);
        }
    }
}

/// Showing a tab gives the keyboard to its focused pane and to no other.
pub proof fn law_only_the_focused_pane_gets_the_keyboard(v: RegistryView, i: int, h: usize)
    requires
        0 <= i < v.tabs.len(),
        display_cmds(v, i, v.tabs.len() as int).contains(SurfaceCmdView::Focus(h)),
    ensures
        v.tabs[i].slot(v.tabs[i].focused) == Some(TabSlot::Spawned(h)),
{
    lemma_display_focus(v, i, v.tabs.len() as int, h);
}

/// The rectangles of the two panes are kept apart.
pub proof fn law_rectangles_are_independent(v: RegistryView, which: PaneIdx, rect: PixelRect)
    ensures
        rect_of(framed(v, which, rect), which) == rect,
        forall|other: PaneIdx|
            other != which ==> rect_of(framed(v, which, rect), other) == #[trigger] rect_of(
                v,
                other,
            ),
{
}

proof fn lemma_live_after(live: Seq<bool>, i: int)
    requires
        0 <= i,
    ensures
        i < live.len() ==> i <= live_after(live, i) <= live.len(),
        live_after(live, i) <= live.len(),
        i <= live_after(live, i) < live.len() ==> live[live_after(live, i)],
        forall|k: int| i <= k < live_after(live, i) && k < live.len() ==> !#[trigger] live[k],
    decreases live.len() - i,
{
    if i < live.len() {
        lemma_live_after(live, i + 1);
    }
}

proof fn lemma_live_before(live: Seq<bool>, i: int)
    requires
        0 <= i <= live.len(),
    ensures
        match live_before(live, i) {
            Some(n) => 0 <= n < i && live[n] && forall|k: int| n < k < i ==> !#[trigger] live[k],
            None => forall|k: int| 0 <= k < i ==> !#[trigger] live[k],
        },
    decreases i,
{
    if i > 0 {
        lemma_live_before(live, i - 1);
    }
}

/// The sidebar leans to a tab that is live, never to the one it leaves, and to
/// none only where no other is live.
pub proof fn law_lean_finds_a_live_tab(live: Seq<bool>, i: int)
    requires
        0 <= i < live.len(),
    ensures
        match live_neighbour(live, i) {
            Some(n) => 0 <= n < live.len() && n != i && live[n],
            None => forall|k: int| 0 <= k < live.len() && k != i ==> !#[trigger] live[k],
        },
{
    lemma_live_after(live, i + 1);
    lemma_live_before(live, i);
    if live_after(live, i + 1) >= live.len() && live_before(live, i) is None {
        assert forall|k: int| 0 <= k < live.len() && k != i implies !#[trigger] live[k] by {
            if k > i {
                assert(live_after(live, i + 1) == live.len());
            }
        }
    }
    if live_after(live, i + 1) < live.len() {
        assert(i + 1 < live.len());
    }
}

proof fn lemma_rank_bounds(order: Seq<Seq<char>>, id: Seq<char>, k: int)
    requires
        0 <= k <= order.len(),
    ensures
        k <= rank_from(order, id, k) <= order.len(),
    decreases order.len() - k,
{
    if k < order.len() {
        lemma_rank_bounds(order, id, k + 1);
    }
}

proof fn lemma_ranked_count(
    tabs: Seq<TabEntryView>,
    order: Seq<Seq<char>>,
    k: int,
    x: TabEntryView,
)
    ensures
        ranked(tabs, order, k).to_multiset().count(x) == if rank(order, x.id) == k {
            tabs.to_multiset().count(x)
        } else {
            0
        },
    decreases tabs.len(),
{
    broadcast use vstd::seq_lib::group_to_multiset_ensures;

    if tabs.len() > 0 {
        let rest = tabs.drop_last();
        let t = tabs.last();
        lemma_ranked_count(rest, order, k, x);
        assert(rest.push(t) =~= tabs);
        assert(tabs.to_multiset() =~= rest.to_multiset().insert(t));
        let q = ranked(rest, order, k);
        if rank(order, t.id) == k {
            assert(ranked(tabs, order, k).to_multiset() =~= q.to_multiset().insert(t));
        }
    } else {
        assert(ranked(tabs, order, k) =~= tabs);
    }
}

proof fn lemma_ranked_upto_count(
    tabs: Seq<TabEntryView>,
    order: Seq<Seq<char>>,
    k: int,
    x: TabEntryView,
)
    requires
        k >= 0,
    ensures
        ranked_upto(tabs, order, k).to_multiset().count(x) == if rank(order, x.id) < k {
            tabs.to_multiset().count(x)
        } else {
            0
        },
    decreases k,
{
    broadcast use vstd::seq_lib::group_to_multiset_ensures;

    lemma_rank_bounds(order, x.id, 0);
    if k > 0 {
        lemma_ranked_upto_count(tabs, order, k - 1, x);
        lemma_ranked_count(tabs, order, k - 1, x);
        let a = ranked_upto(tabs, order, k - 1);
        let b = ranked(tabs, order, k - 1);
        vstd::seq_lib::lemma_multiset_commutative(a, b);
    }
}

/// Reordering loses no tab and invents none, and puts them in the places that
/// the order gives them.
pub proof fn law_reorder_is_a_sorted_permutation(v: RegistryView, order: Seq<Seq<char>>)
    ensures
        reordered(v, order).tabs.to_multiset() == v.tabs.to_multiset(),
        forall|i: int, j: int|
            0 <= i < j < reordered(v, order).tabs.len() ==> rank(
                order,
                (#[trigger] reordered(v, order).tabs[i]).id,
            ) <= rank(order, (#[trigger] reordered(v, order).tabs[j]).id),
{
    let n = order.len() as int + 1;
    lemma_ranked_upto_elements(v.tabs, order, n);
    assert forall|x: TabEntryView| #[trigger] reordered(v, order).tabs.to_multiset().count(x)
        == v.tabs.to_multiset().count(x) by {
        lemma_ranked_upto_count(v.tabs, order, n, x);
        lemma_rank_bounds(order, x.id, 0);
    }
    assert(reordered(v, order).tabs.to_multiset() =~= v.tabs.to_multiset());
}

proof fn lemma_closings(a: Seq<SurfaceCmdView>, b: Seq<SurfaceCmdView>)
    ensures
        closings(a + b) == closings(a) + closings(b),
    decreases b.len(),
{
    if b.len() > 0 {
        lemma_closings(a, b.drop_last());
        assert((a + b).drop_last() =~= a + b.drop_last());
        assert((a + b).last() == b.last());
    } else {
        assert(a + b =~= a);
    }
    assert(closings(a + b) =~= closings(a) + closings(b));
}

/// A terminal of a tab that is removed ends before any other starts: whatever
/// is spawned next is told so.
pub proof fn law_removed_terminals_end_first(
    v: RegistryView,
    id: Seq<char>,
    gone: PaneIdx,
    h: usize,
    i: int,
    which: PaneIdx,
)
    requires
        known(v.tabs, id),
        tab_at(v.tabs, id).slot(gone) == Some(TabSlot::Spawned(h)),
    ensures
        closings(removed(v, id).outbox).contains(h),
        request_at(removed(v, id), i, which) matches Some(q) ==> q.ended.contains(h),
{
    let t = tab_at(v.tabs, id);
    let cmds = close_entry_cmds(t);
    lemma_closings(v.outbox, cmds);
    let first = close_cmds(t.primary.slot);
    let second = match t.secondary {
        Some(p) => close_cmds(p.slot),
        None => Seq::empty(),
    };
    lemma_closings(first, second);
    reveal_with_fuel(closings, 2);
    assert(closings(seq![SurfaceCmdView::Close(h)]) =~= seq![h]) by {
        assert(seq![SurfaceCmdView::Close(h)].drop_last() =~= Seq::empty());
    }
    let all = closings(v.outbox) + closings(cmds);
    assert(closings(cmds).contains(h)) by {
        let a = closings(first);
        let b = closings(second);
        match gone {
            PaneIdx::Primary => {
                assert(first =~= seq![SurfaceCmdView::Close(h)]);
                assert((a + b)[0] == h);
            },
            PaneIdx::Secondary => {
                assert(second =~= seq![SurfaceCmdView::Close(h)]);
                assert((a + b)[a.len() as int] == h);
            },
        }
    }
    let k = choose|k: int| 0 <= k < closings(cmds).len() && closings(cmds)[k] == h;
    assert(all[closings(v.outbox).len() + k] == h);
}

} // verus!
