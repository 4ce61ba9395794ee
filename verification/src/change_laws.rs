//! What a reload takes for a change.

use crate::model::{ConfigView, TabView, WindowView};
use crate::reconcile::{
    changed_meta, changes, difference, differs, first_keyed, first_titled, keys_of,
    lemma_first_keyed, lemma_first_titled, meta_of, needs_respawn, respawned, updates,
    windows_not_in,
};
use crate::reconcile_laws::{
    law_no_update_means_unchanged, law_silent_edits, sets_meta, well_formed,
};
use crate::reload_laws::{lemma_changed_meta, lemma_is_respawned, lemma_left_are_listed};
use crate::resolve::{has_key, has_title};
use crate::resolve_laws::{distinct_keys, distinct_titles};
use vstd::prelude::*;

verus! {

/// Whether two tabs differ in what they are called, where they stand, what
/// watches them, what ends them, or how they are split.
pub open spec fn told_apart(a: TabView, b: TabView) -> bool {
    a.title != b.title || a.group != b.group || a.probe != b.probe || a.kill != b.kill || a.split
        != b.split
}

/// Whether a terminal for one tab would not do for the other, where either has
/// an identity of its own.
pub open spec fn run_apart(a: TabView, b: TabView) -> bool {
    (a.id is Some || b.id is Some) && (a.dir != b.dir || a.shell != b.shell || a.startup
        != b.startup)
}

proof fn lemma_finds_tab(tabs: Seq<TabView>, i: int)
    requires
        distinct_keys(tabs),
        0 <= i < tabs.len(),
    ensures
        first_keyed(tabs, tabs[i].key) == Some(tabs[i]),
{
    lemma_first_keyed(tabs, tabs[i].key);
    assert(has_key(tabs, tabs[i].key));
    let t = first_keyed(tabs, tabs[i].key)->0;
    let k = choose|k: int| 0 <= k < tabs.len() && tabs[k] == t;
    assert(tabs[k].key == tabs[i].key);
}

proof fn lemma_changed_differ(tabs: Seq<TabView>, old: Seq<TabView>)
    ensures
        forall|k: int|
            0 <= k < changed_meta(tabs, old).len() ==> exists|i: int|
                0 <= i < tabs.len() && (#[trigger] changed_meta(tabs, old)[k]) == (
                    (#[trigger] tabs[i]).key,
                    meta_of(tabs[i]),
                ) && first_keyed(old, tabs[i].key) is Some && meta_of(
                    first_keyed(old, tabs[i].key)->0,
                ) != meta_of(tabs[i]),
        forall|k: int|
            0 <= k < respawned(tabs, old).len() ==> exists|i: int|
                0 <= i < tabs.len() && #[trigger] respawned(tabs, old)[k] == (#[trigger] tabs[i])
                    && first_keyed(old, tabs[i].key) is Some && needs_respawn(
                    tabs[i],
                    first_keyed(old, tabs[i].key)->0,
                ),
    decreases tabs.len(),
{
    if tabs.len() > 0 {
        let rest = tabs.drop_last();
        lemma_changed_differ(rest, old);
        let n = tabs.len() - 1;
        assert(tabs[n] == tabs.last());
        let a = changed_meta(tabs, old);
        let p = changed_meta(rest, old);
        assert forall|k: int| 0 <= k < a.len() implies exists|i: int|
            0 <= i < tabs.len() && (#[trigger] a[k]) == (
                (#[trigger] tabs[i]).key,
                meta_of(tabs[i]),
            ) && first_keyed(old, tabs[i].key) is Some && meta_of(
                first_keyed(old, tabs[i].key)->0,
            ) != meta_of(tabs[i]) by {
            if k < p.len() {
                assert(a[k] == p[k]);
                let i = choose|i: int|
                    0 <= i < rest.len() && p[k] == ((#[trigger] rest[i]).key, meta_of(rest[i]))
                        && first_keyed(old, rest[i].key) is Some && meta_of(
                        first_keyed(old, rest[i].key)->0,
                    ) != meta_of(rest[i]);
                assert(tabs[i] == rest[i]);
            } else {
                assert(a[k] == (tabs[n].key, meta_of(tabs[n])));
            }
        }
        let b = respawned(tabs, old);
        let q = respawned(rest, old);
        assert forall|k: int| 0 <= k < b.len() implies exists|i: int|
            0 <= i < tabs.len() && #[trigger] b[k] == (#[trigger] tabs[i]) && first_keyed(
                old,
                tabs[i].key,
            ) is Some && needs_respawn(tabs[i], first_keyed(old, tabs[i].key)->0) by {
            if k < q.len() {
                assert(b[k] == q[k]);
                let i = choose|i: int|
                    0 <= i < rest.len() && q[k] == (#[trigger] rest[i]) && first_keyed(
                        old,
                        rest[i].key,
                    ) is Some && needs_respawn(rest[i], first_keyed(old, rest[i].key)->0);
                assert(tabs[i] == rest[i]);
            } else {
                assert(b[k] == tabs[n]);
            }
        }
    }
}

/// Of a tab that stays, metadata is set exactly where it says something else
/// than before, and it is what the tab says now.
pub proof fn law_metadata_is_set_where_it_differs(o: WindowView, n: WindowView, i: int, j: int)
    requires
        distinct_keys(o.tabs),
        distinct_keys(n.tabs),
        0 <= i < o.tabs.len(),
        0 <= j < n.tabs.len(),
        o.tabs[i].key == n.tabs[j].key,
    ensures
        sets_meta(changes(o, n).set_meta, n.tabs[j].key) <==> told_apart(o.tabs[i], n.tabs[j]),
        forall|k: int|
            0 <= k < changes(o, n).set_meta.len() && (#[trigger] changes(o, n).set_meta[k]).0
                == n.tabs[j].key ==> {
                let m = changes(o, n).set_meta[k].1;
                &&& m.title == n.tabs[j].title
                &&& m.group == n.tabs[j].group
                &&& m.probe == n.tabs[j].probe
                &&& m.kill == n.tabs[j].kill
                &&& m.split == n.tabs[j].split
            },
{
    let a = o.tabs[i];
    let b = n.tabs[j];
    let cm = changes(o, n).set_meta;
    lemma_finds_tab(o.tabs, i);
    lemma_changed_meta(n.tabs, o.tabs);
    lemma_changed_differ(n.tabs, o.tabs);
    assert forall|k: int| 0 <= k < cm.len() && (#[trigger] cm[k]).0 == b.key implies cm[k].1
        == meta_of(b) && meta_of(a) != meta_of(b) by {
        let x = choose|x: int|
            0 <= x < n.tabs.len() && cm[k] == ((#[trigger] n.tabs[x]).key, meta_of(n.tabs[x]))
                && first_keyed(o.tabs, n.tabs[x].key) is Some && meta_of(
                first_keyed(o.tabs, n.tabs[x].key)->0,
            ) != meta_of(n.tabs[x]);
        assert(n.tabs[x].key == n.tabs[j].key);
    }
    if told_apart(a, b) {
        assert(meta_of(a) != meta_of(b)) by {
            if meta_of(a) == meta_of(b) {
                assert(meta_of(a).title == meta_of(b).title);
                assert(meta_of(a).group == meta_of(b).group);
                assert(meta_of(a).probe == meta_of(b).probe);
                assert(meta_of(a).kill == meta_of(b).kill);
                assert(meta_of(a).split == meta_of(b).split);
            }
        }
        assert(cm.contains((b.key, meta_of(b))));
        let k = choose|k: int| 0 <= k < cm.len() && cm[k] == (b.key, meta_of(b));
        assert(cm[k].0 == b.key);
    }
    if sets_meta(cm, b.key) {
        let k = choose|k: int| 0 <= k < cm.len() && (#[trigger] cm[k]).0 == b.key;
        assert(meta_of(a) != meta_of(b));
    }
}

/// A tab that stays gets a new terminal exactly where the one it has would not
/// do and either side names the tab.
pub proof fn law_terminals_start_anew_where_they_differ(
    o: WindowView,
    n: WindowView,
    i: int,
    j: int,
)
    requires
        distinct_keys(o.tabs),
        distinct_keys(n.tabs),
        0 <= i < o.tabs.len(),
        0 <= j < n.tabs.len(),
        o.tabs[i].key == n.tabs[j].key,
    ensures
        has_key(changes(o, n).respawn_tabs, n.tabs[j].key) <==> run_apart(o.tabs[i], n.tabs[j]),
{
    let a = o.tabs[i];
    let b = n.tabs[j];
    let rs = changes(o, n).respawn_tabs;
    lemma_finds_tab(o.tabs, i);
    lemma_changed_differ(n.tabs, o.tabs);
    if run_apart(a, b) {
        lemma_is_respawned(n.tabs, o.tabs, j);
        let k = choose|k: int| 0 <= k < keys_of(rs).len() && keys_of(rs)[k] == b.key;
        assert(rs[k].key == b.key);
    }
    if has_key(rs, b.key) {
        let k = choose|k: int| 0 <= k < rs.len() && (#[trigger] rs[k]).key == b.key;
        let x = choose|x: int|
            0 <= x < n.tabs.len() && rs[k] == (#[trigger] n.tabs[x]) && first_keyed(
                o.tabs,
                n.tabs[x].key,
            ) is Some && needs_respawn(n.tabs[x], first_keyed(o.tabs, n.tabs[x].key)->0);
        assert(n.tabs[x].key == n.tabs[j].key);
    }
}

/// What an update adds, and what it gives a new terminal, are tabs of the new
/// window as they are listed there; its colour is the new one, where it is
/// another.
pub proof fn law_updates_hold_what_is_listed(o: WindowView, n: WindowView, k: int)
    ensures
        0 <= k < changes(o, n).add_tabs.len() ==> n.tabs.contains(changes(o, n).add_tabs[k]),
        0 <= k < changes(o, n).respawn_tabs.len() ==> n.tabs.contains(
            changes(o, n).respawn_tabs[k],
        ),
        changes(o, n).colour is Some <==> o.colour != n.colour,
        changes(o, n).colour matches Some(c) ==> c == n.colour,
        changes(o, n).title == n.title,
{
    lemma_left_are_listed(n.tabs, o.tabs);
}

/// Whether two windows have a tab in common that is told apart, or would not
/// run in the same terminal.
pub open spec fn shared_tab_differs(o: WindowView, n: WindowView) -> bool {
    exists|i: int, j: int|
        0 <= i < o.tabs.len() && 0 <= j < n.tabs.len() && (#[trigger] o.tabs[i]).key == (
        #[trigger] n.tabs[j]).key && (told_apart(o.tabs[i], n.tabs[j]) || run_apart(
            o.tabs[i],
            n.tabs[j],
        ))
}

/// A window is updated exactly where its colour, its tabs or their order are
/// others, or a tab that stays differs.
pub proof fn law_a_window_is_updated_where_it_differs(o: WindowView, n: WindowView)
    requires
        distinct_keys(o.tabs),
        distinct_keys(n.tabs),
    ensures
        differs(o, n) <==> o.colour != n.colour || keys_of(o.tabs) != keys_of(n.tabs)
            || shared_tab_differs(o, n),
{
    let ko = keys_of(o.tabs);
    let kn = keys_of(n.tabs);
    assert(ko.len() == o.tabs.len() && kn.len() == n.tabs.len());
    if !differs(o, n) {
        law_no_update_means_unchanged(o, n);
        if shared_tab_differs(o, n) {
            let (i, j) = choose|i: int, j: int|
                0 <= i < o.tabs.len() && 0 <= j < n.tabs.len() && (#[trigger] o.tabs[i]).key == (
                #[trigger] n.tabs[j]).key && (told_apart(o.tabs[i], n.tabs[j]) || run_apart(
                    o.tabs[i],
                    n.tabs[j],
                ));
            law_metadata_is_set_where_it_differs(o, n, i, j);
            law_terminals_start_anew_where_they_differ(o, n, i, j);
            assert(changes(o, n).set_meta.len() == 0);
            assert(changes(o, n).respawn_tabs.len() == 0);
        }
    }
    if o.colour == n.colour && ko == kn && !shared_tab_differs(o, n) {
        assert forall|i: int| 0 <= i < n.tabs.len() implies {
            &&& (#[trigger] n.tabs[i]).key == o.tabs[i].key
            &&& meta_of(n.tabs[i]) == meta_of(o.tabs[i])
            &&& (n.tabs[i].id is None && o.tabs[i].id is None)
                || crate::reconcile::same_terminal(o.tabs[i], n.tabs[i])
        } by {
            assert(ko[i] == kn[i]);
            assert(!told_apart(o.tabs[i], n.tabs[i]) && !run_apart(o.tabs[i], n.tabs[i]));
        }
        law_silent_edits(o, n);
    }
}

/// The windows to open are windows of the new configuration, as they are listed
/// there.
pub proof fn law_opened_windows_are_listed(old: ConfigView, new: ConfigView, k: int)
    requires
        0 <= k < difference(old, new).open.len(),
    ensures
        new.windows.contains(difference(old, new).open[k]),
{
    lemma_open_listed(new.windows, old.windows, k);
}

proof fn lemma_open_listed(windows: Seq<WindowView>, old: Seq<WindowView>, k: int)
    requires
        0 <= k < windows_not_in(windows, old).len(),
    ensures
        windows.contains(windows_not_in(windows, old)[k]),
    decreases windows.len(),
{
    let rest = windows.drop_last();
    let a = windows_not_in(windows, old);
    let p = windows_not_in(rest, old);
    if k < p.len() {
        lemma_open_listed(rest, old, k);
        assert(a[k] == p[k]);
        let i = choose|i: int| 0 <= i < rest.len() && rest[i] == p[k];
        assert(windows[i] == a[k]);
    } else {
        assert(windows[windows.len() - 1] == a[k]);
    }
}

/// A window that both configurations list is updated exactly where it differs,
/// from what the old one lists under its title.
pub proof fn law_kept_windows_are_updated(old: ConfigView, new: ConfigView, i: int, j: int)
    requires
        well_formed(old),
        well_formed(new),
        0 <= i < old.windows.len(),
        0 <= j < new.windows.len(),
        old.windows[i].title == new.windows[j].title,
    ensures
        (exists|k: int|
            0 <= k < difference(old, new).update.len() && (#[trigger] difference(
                old,
                new,
            ).update[k]).title == new.windows[j].title) <==> differs(
            old.windows[i],
            new.windows[j],
        ),
{
    lemma_updates_of(new.windows, old.windows, i, j);
}

proof fn lemma_updates_of(windows: Seq<WindowView>, old: Seq<WindowView>, i: int, j: int)
    requires
        distinct_titles(windows),
        distinct_titles(old),
        0 <= i < old.len(),
        0 <= j < windows.len(),
        old[i].title == windows[j].title,
    ensures
        (exists|k: int|
            0 <= k < updates(windows, old).len() && (#[trigger] updates(windows, old)[k]).title
                == windows[j].title) <==> differs(old[i], windows[j]),
    decreases windows.len(),
{
    let rest = windows.drop_last();
    let n = windows.last();
    let t = windows[j].title;
    let p = updates(rest, old);
    let a = updates(windows, old);
    lemma_first_titled(old, t);
    assert(old[i].title == t);
    let w = first_titled(old, t)->0;
    let q = choose|q: int| 0 <= q < old.len() && old[q] == w;
    if q < i {
        assert(old[q].title != old[i].title);
    }
    if i < q {
        assert(old[i].title != old[q].title);
    }
    assert(w == old[i]);
    if j < rest.len() {
        assert forall|x: int, y: int| 0 <= x < y < rest.len() implies (#[trigger] rest[x]).title != (
        #[trigger] rest[y]).title by {
            assert(windows[x].title != windows[y].title);
        }
        assert(rest[j] == windows[j]);
        lemma_updates_of(rest, old, i, j);
        assert(windows[j].title != windows[rest.len() as int].title);
        if exists|k: int| 0 <= k < p.len() && (#[trigger] p[k]).title == t {
            let k = choose|k: int| 0 <= k < p.len() && (#[trigger] p[k]).title == t;
            assert(a[k].title == t);
        }
        if exists|k: int| 0 <= k < a.len() && (#[trigger] a[k]).title == t {
            let k = choose|k: int| 0 <= k < a.len() && (#[trigger] a[k]).title == t;
            if k < p.len() {
                assert(p[k].title == t);
            } else {
                assert(a[k].title == n.title);
            }
        }
    } else {
        lemma_no_update(rest, old, t);
        if differs(old[i], windows[j]) {
            assert(a[p.len() as int].title == t);
        }
        if exists|k: int| 0 <= k < a.len() && (#[trigger] a[k]).title == t {
            let k = choose|k: int| 0 <= k < a.len() && (#[trigger] a[k]).title == t;
            if k < p.len() {
                assert(p[k].title == t);
            }
        }
    }
}

proof fn lemma_no_update(windows: Seq<WindowView>, old: Seq<WindowView>, title: Seq<char>)
    requires
        forall|k: int| 0 <= k < windows.len() ==> (#[trigger] windows[k]).title != title,
    ensures
        forall|k: int|
            0 <= k < updates(windows, old).len() ==> (#[trigger] updates(windows, old)[k]).title
                != title,
    decreases windows.len(),
{
    if windows.len() > 0 {
        let rest = windows.drop_last();
        assert forall|k: int| 0 <= k < rest.len() implies (#[trigger] rest[k]).title != title by {
            assert(rest[k] == windows[k]);
        }
        lemma_no_update(rest, old, title);
        let p = updates(rest, old);
        let a = updates(windows, old);
        assert(windows[windows.len() - 1].title != title);
        assert forall|k: int| 0 <= k < a.len() implies (#[trigger] a[k]).title != title by {
            if k < p.len() {
                assert(a[k] == p[k]);
            }
        }
    }
}

/// New windows are opened in the order in which the configuration lists them.
pub proof fn law_windows_open_in_file_order(old: ConfigView, new: ConfigView, a: int, b: int)
    requires
        0 <= a < b < new.windows.len(),
        !has_title(old.windows, new.windows[a].title),
        !has_title(old.windows, new.windows[b].title),
    ensures
        exists|i: int, j: int|
            0 <= i < j < difference(old, new).open.len() && #[trigger] difference(old, new).open[i]
                == new.windows[a] && #[trigger] difference(old, new).open[j] == new.windows[b],
{
    let at = lemma_open_order(new.windows, old.windows, a, b);
    assert(difference(old, new).open[at.0] == new.windows[a]);
    assert(difference(old, new).open[at.1] == new.windows[b]);
}

proof fn lemma_open_order(
    windows: Seq<WindowView>,
    old: Seq<WindowView>,
    a: int,
    b: int,
) -> (at: (int, int))
    requires
        0 <= a <= b < windows.len(),
        !has_title(old, windows[a].title),
        !has_title(old, windows[b].title),
    ensures
        0 <= at.0 <= at.1 < windows_not_in(windows, old).len(),
        a < b ==> at.0 < at.1,
        windows_not_in(windows, old)[at.0] == windows[a],
        windows_not_in(windows, old)[at.1] == windows[b],
    decreases windows.len(),
{
    let rest = windows.drop_last();
    let p = windows_not_in(rest, old);
    if b < rest.len() {
        lemma_open_order(rest, old, a, b)
    } else if a < rest.len() {
        let at = lemma_open_order(rest, old, a, a);
        (at.0, p.len() as int)
    } else {
        (p.len() as int, p.len() as int)
    }
}

} // verus!
