//! What holds of the difference between any two configurations.

use crate::model::{ConfigView, TabView, WindowView};
use crate::raw::RawConfigView;
use crate::reconcile::{
    changed_meta, changes, difference, differs, first_keyed, first_titled, keys_of,
    lemma_first_keyed, lemma_first_titled, meta_of, needs_respawn, respawned, same_terminal, shared_keys,
    tabs_not_in, titles_not_in, updates, windows_not_in, TabMetaView, WindowUpdateView,
};
use crate::resolve::{config_of, has_key, has_title, scope_of, window_of, ResolveErrorView};
use crate::resolve_laws::{
    distinct_keys, distinct_titles, law_tab_identities_are_unique, law_window_titles_are_unique,
    law_windows_keep_file_order,
};
use vstd::prelude::*;

verus! {

/// Windows have titles of their own and their tabs identities of their own, as
/// in every configuration that resolves.
pub open spec fn well_formed(c: ConfigView) -> bool {
    &&& distinct_titles(c.windows)
    &&& forall|i: int| 0 <= i < c.windows.len() ==> distinct_keys((#[trigger] c.windows[i]).tabs)
}

/// Every configuration that resolves is well formed.
pub proof fn law_resolved_configs_are_well_formed(
    raw: RawConfigView,
    default_shell: Seq<char>,
    home: Option<Seq<char>>,
)
    requires
        config_of(raw, default_shell, home) is Ok,
    ensures
        well_formed(config_of(raw, default_shell, home)->Ok_0),
{
    let c = config_of(raw, default_shell, home)->Ok_0;
    let sc = scope_of(raw, default_shell, home);
    law_window_titles_are_unique(raw, default_shell, home);
    law_windows_keep_file_order(raw, default_shell, home);
    assert forall|i: int| 0 <= i < c.windows.len() implies distinct_keys(
        (#[trigger] c.windows[i]).tabs,
    ) by {
        assert(window_of(raw.windows[i], sc) == Ok::<WindowView, ResolveErrorView>(c.windows[i]));
        law_tab_identities_are_unique(raw.windows[i], sc);
    }
}

proof fn lemma_finds_itself(tabs: Seq<TabView>, i: int)
    requires
        distinct_keys(tabs),
        0 <= i < tabs.len(),
    ensures
        first_keyed(tabs, tabs[i].key) == Some(tabs[i]),
        has_key(tabs, tabs[i].key),
{
    lemma_first_keyed(tabs, tabs[i].key);
    assert(has_key(tabs, tabs[i].key));
    let t = first_keyed(tabs, tabs[i].key)->0;
    let j = choose|j: int| 0 <= j < tabs.len() && tabs[j] == t;
    assert(tabs[j].key == tabs[i].key);
    if j < i {
        assert(tabs[j].key != tabs[i].key);
    } else if i < j {
        assert(tabs[i].key != tabs[j].key);
    }
}

/// Among windows with titles of their own each is found by its title.
pub proof fn lemma_window_finds_itself(windows: Seq<WindowView>, i: int)
    requires
        distinct_titles(windows),
        0 <= i < windows.len(),
    ensures
        first_titled(windows, windows[i].title) == Some(windows[i]),
        has_title(windows, windows[i].title),
{
    lemma_first_titled(windows, windows[i].title);
    assert(has_title(windows, windows[i].title));
    let t = first_titled(windows, windows[i].title)->0;
    let j = choose|j: int| 0 <= j < windows.len() && windows[j] == t;
    assert(windows[j].title == windows[i].title);
    if j < i {
        assert(windows[j].title != windows[i].title);
    } else if i < j {
        assert(windows[i].title != windows[j].title);
    }
}

/// Where every tab's identity is in `others`, none is left over and all are
/// shared.
proof fn lemma_all_shared(tabs: Seq<TabView>, others: Seq<TabView>)
    requires
        forall|i: int| 0 <= i < tabs.len() ==> has_key(others, (#[trigger] tabs[i]).key),
    ensures
        tabs_not_in(tabs, others) == Seq::<TabView>::empty(),
        shared_keys(tabs, others) == keys_of(tabs),
    decreases tabs.len(),
{
    if tabs.len() > 0 {
        assert(has_key(others, tabs[tabs.len() - 1].key));
        assert forall|i: int| 0 <= i < tabs.drop_last().len() implies has_key(
            others,
            (#[trigger] tabs.drop_last()[i]).key,
        ) by {
            assert(tabs.drop_last()[i] == tabs[i]);
        }
        lemma_all_shared(tabs.drop_last(), others);
        assert(keys_of(tabs.drop_last()).push(tabs.last().key) =~= keys_of(tabs));
    } else {
        assert(shared_keys(tabs, others) =~= keys_of(tabs));
    }
}

/// Where nothing is left over, every tab's identity is in `others`.
proof fn lemma_none_left(tabs: Seq<TabView>, others: Seq<TabView>)
    requires
        tabs_not_in(tabs, others).len() == 0,
    ensures
        forall|i: int| 0 <= i < tabs.len() ==> has_key(others, (#[trigger] tabs[i]).key),
    decreases tabs.len(),
{
    if tabs.len() > 0 {
        lemma_none_left(tabs.drop_last(), others);
        assert forall|i: int| 0 <= i < tabs.len() implies has_key(
            others,
            (#[trigger] tabs[i]).key,
        ) by {
            if i < tabs.len() - 1 {
                assert(tabs.drop_last()[i] == tabs[i]);
            }
        }
    }
}

proof fn lemma_no_meta_changes(tabs: Seq<TabView>, old: Seq<TabView>)
    requires
        forall|i: int|
            0 <= i < tabs.len() ==> first_keyed(old, (#[trigger] tabs[i]).key) is Some && meta_of(
                first_keyed(old, tabs[i].key)->0,
            ) == meta_of(tabs[i]),
    ensures
        changed_meta(tabs, old) == Seq::<(Seq<char>, TabMetaView)>::empty(),
    decreases tabs.len(),
{
    if tabs.len() > 0 {
        assert(first_keyed(old, tabs[tabs.len() - 1].key) is Some);
        assert forall|i: int| 0 <= i < tabs.drop_last().len() implies first_keyed(
            old,
            (#[trigger] tabs.drop_last()[i]).key,
        ) is Some && meta_of(first_keyed(old, tabs.drop_last()[i].key)->0) == meta_of(
            tabs.drop_last()[i],
        ) by {
            assert(tabs.drop_last()[i] == tabs[i]);
        }
        lemma_no_meta_changes(tabs.drop_last(), old);
    }
}

proof fn lemma_meta_unchanged(tabs: Seq<TabView>, old: Seq<TabView>)
    requires
        changed_meta(tabs, old).len() == 0,
    ensures
        forall|i: int|
            0 <= i < tabs.len() ==> (first_keyed(old, (#[trigger] tabs[i]).key) matches Some(o)
                ==> meta_of(o) == meta_of(tabs[i])),
    decreases tabs.len(),
{
    if tabs.len() > 0 {
        lemma_meta_unchanged(tabs.drop_last(), old);
        assert forall|i: int| 0 <= i < tabs.len() implies (first_keyed(
            old,
            (#[trigger] tabs[i]).key,
        ) matches Some(o) ==> meta_of(o) == meta_of(tabs[i])) by {
            if i < tabs.len() - 1 {
                assert(tabs.drop_last()[i] == tabs[i]);
            }
        }
    }
}

proof fn lemma_no_respawns(tabs: Seq<TabView>, old: Seq<TabView>)
    requires
        forall|i: int|
            0 <= i < tabs.len() ==> (first_keyed(old, (#[trigger] tabs[i]).key) matches Some(o)
                ==> !needs_respawn(tabs[i], o)),
    ensures
        respawned(tabs, old) == Seq::<TabView>::empty(),
    decreases tabs.len(),
{
    if tabs.len() > 0 {
        let rest = tabs.drop_last();
        assert(tabs[tabs.len() - 1] == tabs.last());
        assert forall|i: int| 0 <= i < rest.len() implies (first_keyed(
            old,
            (#[trigger] rest[i]).key,
        ) matches Some(o) ==> !needs_respawn(rest[i], o)) by {
            assert(rest[i] == tabs[i]);
        }
        lemma_no_respawns(rest, old);
    }
}

/// A window whose tabs keep identity, order and metadata, and its colour,
/// needs no change; what a tab without an explicit identity runs, when it is
/// loaded, and the size of the window may all differ.
pub proof fn law_silent_edits(o: WindowView, n: WindowView)
    requires
        distinct_keys(o.tabs),
        o.colour == n.colour,
        o.tabs.len() == n.tabs.len(),
        forall|i: int|
            0 <= i < n.tabs.len() ==> {
                &&& (#[trigger] n.tabs[i]).key == o.tabs[i].key
                &&& meta_of(n.tabs[i]) == meta_of(o.tabs[i])
                &&& (n.tabs[i].id is None && o.tabs[i].id is None) || same_terminal(
                    o.tabs[i],
                    n.tabs[i],
                )
            },
    ensures
        !differs(o, n),
{
    assert forall|i: int| 0 <= i < n.tabs.len() implies {
        &&& first_keyed(o.tabs, (#[trigger] n.tabs[i]).key) == Some(o.tabs[i])
        &&& has_key(o.tabs, n.tabs[i].key)
    } by {
        lemma_finds_itself(o.tabs, i);
    }
    assert forall|i: int| 0 <= i < o.tabs.len() implies has_key(
        n.tabs,
        (#[trigger] o.tabs[i]).key,
    ) by {
        assert(n.tabs[i].key == o.tabs[i].key);
    }
    lemma_all_shared(n.tabs, o.tabs);
    lemma_all_shared(o.tabs, n.tabs);
    assert(keys_of(n.tabs) =~= keys_of(o.tabs));
    lemma_no_meta_changes(n.tabs, o.tabs);
    lemma_no_respawns(n.tabs, o.tabs);
    assert(changes(o, n).remove_tabs.len() == 0);
}

/// A window that needs no change has its tabs in the same order, with the same
/// identities and the same metadata, and the same colour.
pub proof fn law_no_update_means_unchanged(o: WindowView, n: WindowView)
    requires
        distinct_keys(o.tabs),
        distinct_keys(n.tabs),
        !differs(o, n),
    ensures
        o.colour == n.colour,
        keys_of(o.tabs) == keys_of(n.tabs),
        forall|i: int| 0 <= i < n.tabs.len() ==> meta_of(#[trigger] n.tabs[i]) == meta_of(o.tabs[i]),
{
    assert(changes(o, n).remove_tabs.len() == tabs_not_in(o.tabs, n.tabs).len());
    lemma_none_left(n.tabs, o.tabs);
    lemma_none_left(o.tabs, n.tabs);
    lemma_all_shared(n.tabs, o.tabs);
    lemma_all_shared(o.tabs, n.tabs);
    lemma_meta_unchanged(n.tabs, o.tabs);
    assert(keys_of(o.tabs).len() == o.tabs.len());
    assert(keys_of(n.tabs).len() == n.tabs.len());
    assert forall|i: int| 0 <= i < n.tabs.len() implies meta_of(#[trigger] n.tabs[i]) == meta_of(
        o.tabs[i],
    ) by {
        assert(keys_of(n.tabs)[i] == keys_of(o.tabs)[i]);
        assert(n.tabs[i].key == o.tabs[i].key);
        lemma_finds_itself(o.tabs, i);
    }
}

/// What is left of titles are those that the others lack.
pub proof fn lemma_titles_not_in(windows: Seq<WindowView>, others: Seq<WindowView>, title: Seq<char>)
    ensures
        titles_not_in(windows, others).contains(title) <==> has_title(windows, title) && !has_title(
            others,
            title,
        ),
    decreases windows.len(),
{
    if windows.len() > 0 {
        let rest = windows.drop_last();
        let last = windows.last();
        lemma_titles_not_in(rest, others, title);
        assert(has_title(windows, title) == (has_title(rest, title) || last.title == title)) by {
            if has_title(windows, title) {
                let i = choose|i: int|
                    0 <= i < windows.len() && (#[trigger] windows[i]).title == title;
                if i < rest.len() {
                    assert(rest[i].title == title);
                }
            }
            if has_title(rest, title) {
                let i = choose|i: int| 0 <= i < rest.len() && (#[trigger] rest[i]).title == title;
                assert(windows[i].title == title);
            }
            if last.title == title {
                assert(windows[windows.len() - 1].title == title);
            }
        }
        let before = titles_not_in(rest, others);
        if !has_title(others, last.title) {
            let after = before.push(last.title);
            assert(after.contains(title) == (before.contains(title) || last.title == title)) by {
                if before.contains(title) {
                    let i = choose|i: int| 0 <= i < before.len() && before[i] == title;
                    assert(after[i] == title);
                }
                if last.title == title {
                    assert(after[before.len() as int] == title);
                }
            }
        }
    }
}

/// What is left of windows are those whose titles the others lack.
pub proof fn lemma_windows_not_in(windows: Seq<WindowView>, old: Seq<WindowView>, title: Seq<char>)
    ensures
        has_title(windows_not_in(windows, old), title) <==> has_title(windows, title) && !has_title(
            old,
            title,
        ),
    decreases windows.len(),
{
    if windows.len() > 0 {
        let rest = windows.drop_last();
        let last = windows.last();
        lemma_windows_not_in(rest, old, title);
        assert(has_title(windows, title) == (has_title(rest, title) || last.title == title)) by {
            if has_title(windows, title) {
                let i = choose|i: int|
                    0 <= i < windows.len() && (#[trigger] windows[i]).title == title;
                if i < rest.len() {
                    assert(rest[i].title == title);
                }
            }
            if has_title(rest, title) {
                let i = choose|i: int| 0 <= i < rest.len() && (#[trigger] rest[i]).title == title;
                assert(windows[i].title == title);
            }
            if last.title == title {
                assert(windows[windows.len() - 1].title == title);
            }
        }
        let before = windows_not_in(rest, old);
        if !has_title(old, last.title) {
            let after = before.push(last);
            assert(has_title(after, title) == (has_title(before, title) || last.title == title))
                by {
                if has_title(before, title) {
                    let i = choose|i: int|
                        0 <= i < before.len() && (#[trigger] before[i]).title == title;
                    assert(after[i].title == title);
                }
                if last.title == title {
                    assert(after[before.len() as int].title == title);
                }
                if has_title(after, title) {
                    let i = choose|i: int|
                        0 <= i < after.len() && (#[trigger] after[i]).title == title;
                    if i < before.len() {
                        assert(before[i].title == title);
                    }
                }
            }
        }
    }
}

/// Closing what is to be closed and opening what is to be opened leaves
/// exactly the windows of the new configuration.
pub proof fn law_windows_are_accounted_for(old: ConfigView, new: ConfigView, title: Seq<char>)
    ensures
        has_title(new.windows, title) <==> {
            ||| has_title(old.windows, title) && !difference(old, new).close.contains(title)
            ||| has_title(difference(old, new).open, title)
        },
{
    lemma_titles_not_in(old.windows, new.windows, title);
    lemma_windows_not_in(new.windows, old.windows, title);
}

/// What is left of tabs are those that the others lack.
pub proof fn lemma_tabs_not_in(tabs: Seq<TabView>, others: Seq<TabView>, key: Seq<char>)
    ensures
        has_key(tabs_not_in(tabs, others), key) <==> has_key(tabs, key) && !has_key(others, key),
    decreases tabs.len(),
{
    if tabs.len() > 0 {
        let rest = tabs.drop_last();
        let last = tabs.last();
        lemma_tabs_not_in(rest, others, key);
        assert(has_key(tabs, key) == (has_key(rest, key) || last.key == key)) by {
            if has_key(tabs, key) {
                let i = choose|i: int| 0 <= i < tabs.len() && (#[trigger] tabs[i]).key == key;
                if i < rest.len() {
                    assert(rest[i].key == key);
                }
            }
            if has_key(rest, key) {
                let i = choose|i: int| 0 <= i < rest.len() && (#[trigger] rest[i]).key == key;
                assert(tabs[i].key == key);
            }
            if last.key == key {
                assert(tabs[tabs.len() - 1].key == key);
            }
        }
        let before = tabs_not_in(rest, others);
        if !has_key(others, last.key) {
            let after = before.push(last);
            assert(has_key(after, key) == (has_key(before, key) || last.key == key)) by {
                if has_key(before, key) {
                    let i = choose|i: int|
                        0 <= i < before.len() && (#[trigger] before[i]).key == key;
                    assert(after[i].key == key);
                }
                if last.key == key {
                    assert(after[before.len() as int].key == key);
                }
                if has_key(after, key) {
                    let i = choose|i: int|
                        0 <= i < after.len() && (#[trigger] after[i]).key == key;
                    if i < before.len() {
                        assert(before[i].key == key);
                    }
                }
            }
        }
    }
}

/// Removing and adding tabs as an update says leaves exactly the tabs of the
/// new window, and the update names them all in their new order.
pub proof fn law_tabs_are_accounted_for(o: WindowView, n: WindowView, key: Seq<char>)
    ensures
        has_key(n.tabs, key) <==> {
            ||| has_key(o.tabs, key) && !changes(o, n).remove_tabs.contains(key)
            ||| has_key(changes(o, n).add_tabs, key)
        },
        changes(o, n).tab_order == keys_of(n.tabs),
{
    lemma_tabs_not_in(n.tabs, o.tabs, key);
    lemma_tabs_not_in(o.tabs, n.tabs, key);
    let gone = tabs_not_in(o.tabs, n.tabs);
    assert(keys_of(gone).contains(key) == has_key(gone, key)) by {
        if has_key(gone, key) {
            let i = choose|i: int| 0 <= i < gone.len() && (#[trigger] gone[i]).key == key;
            assert(keys_of(gone)[i] == key);
        }
        if keys_of(gone).contains(key) {
            let i = choose|i: int| 0 <= i < keys_of(gone).len() && keys_of(gone)[i] == key;
            assert(gone[i].key == key);
        }
    }
}

proof fn lemma_updates_nothing(windows: Seq<WindowView>, old: Seq<WindowView>)
    requires
        distinct_titles(old),
        windows.len() <= old.len(),
        windows == old.take(windows.len() as int),
        forall|i: int| 0 <= i < old.len() ==> distinct_keys((#[trigger] old[i]).tabs),
    ensures
        updates(windows, old) == Seq::<WindowUpdateView>::empty(),
        windows_not_in(windows, old) == Seq::<WindowView>::empty(),
        titles_not_in(windows, old) == Seq::<Seq<char>>::empty(),
    decreases windows.len(),
{
    if windows.len() > 0 {
        let n = windows.len() - 1;
        assert(windows.drop_last() =~= old.take(n));
        lemma_updates_nothing(windows.drop_last(), old);
        assert(windows.last() == old[n]);
        lemma_window_finds_itself(old, n);
        law_silent_edits(old[n], old[n]);
    }
}

/// There is nothing to do between a configuration and itself: reloading an
/// unchanged file changes nothing on screen.
pub proof fn law_unchanged_config_is_silent(c: ConfigView)
    requires
        well_formed(c),
    ensures
        difference(c, c).open.len() == 0,
        difference(c, c).close.len() == 0,
        difference(c, c).update.len() == 0,
{
    assert(c.windows.take(c.windows.len() as int) =~= c.windows);
    lemma_updates_nothing(c.windows, c.windows);
}

proof fn lemma_updates_ignore_size(a: Seq<WindowView>, b: Seq<WindowView>, old: Seq<WindowView>)
    requires
        a.len() == b.len(),
        forall|i: int|
            0 <= i < a.len() ==> {
                &&& (#[trigger] a[i]).title == b[i].title
                &&& a[i].colour == b[i].colour
                &&& a[i].tabs == b[i].tabs
            },
    ensures
        updates(a, old) == updates(b, old),
    decreases a.len(),
{
    if a.len() > 0 {
        lemma_updates_ignore_size(a.drop_last(), b.drop_last(), old);
        assert(a[a.len() - 1].title == b[a.len() - 1].title);
        let n = a.last();
        let m = b.last();
        assert forall|o: WindowView| changes(o, n) == changes(o, m) && differs(o, n) == differs(
            o,
            m,
        ) by {}
    }
}

/// The size of a window, whether it opens at launch, and its roots never make
/// a difference to a window that stays open.
pub proof fn law_size_is_not_reconciled(old: ConfigView, new: ConfigView, other: ConfigView)
    requires
        new.windows.len() == other.windows.len(),
        forall|i: int|
            0 <= i < new.windows.len() ==> {
                &&& (#[trigger] new.windows[i]).title == other.windows[i].title
                &&& new.windows[i].colour == other.windows[i].colour
                &&& new.windows[i].tabs == other.windows[i].tabs
            },
    ensures
        difference(old, new).update == difference(old, other).update,
{
    lemma_updates_ignore_size(new.windows, other.windows, old.windows);
}

/// The titles of `windows`, in order.
pub open spec fn titles_of(windows: Seq<WindowView>) -> Seq<Seq<char>> {
    windows.map_values(|w: WindowView| w.title)
}

/// The update of the window titled `title`, if there is one.
pub open spec fn updated(us: Seq<WindowUpdateView>, title: Seq<char>) -> Option<WindowUpdateView>
    decreases us.len(),
{
    if us.len() == 0 {
        None
    } else if us.last().title == title {
        Some(us.last())
    } else {
        updated(us.drop_last(), title)
    }
}

/// Whether new metadata is set for tab `key`.
pub open spec fn sets_meta(m: Seq<(Seq<char>, TabMetaView)>, key: Seq<char>) -> bool {
    exists|i: int| 0 <= i < m.len() && (#[trigger] m[i]).0 == key
}

proof fn lemma_titles_left(windows: Seq<WindowView>, others: Seq<WindowView>)
    ensures
        titles_not_in(windows, others) == titles_of(windows_not_in(windows, others)),
    decreases windows.len(),
{
    if windows.len() > 0 {
        lemma_titles_left(windows.drop_last(), others);
    }
    assert(titles_not_in(windows, others) =~= titles_of(windows_not_in(windows, others)));
}

/// Whether metadata is set for a tab that has changed.
pub open spec fn meta_differs(tabs: Seq<TabView>, i: int, old: Seq<TabView>, key: Seq<char>) -> bool {
    &&& tabs[i].key == key
    &&& first_keyed(old, key) is Some
    &&& meta_of(first_keyed(old, key)->0) != meta_of(tabs[i])
}

proof fn lemma_sets_meta(tabs: Seq<TabView>, old: Seq<TabView>, key: Seq<char>)
    ensures
        sets_meta(changed_meta(tabs, old), key) <==> exists|i: int|
            0 <= i < tabs.len() && #[trigger] meta_differs(tabs, i, old, key),
    decreases tabs.len(),
{
    if tabs.len() > 0 {
        let rest = tabs.drop_last();
        let t = tabs.last();
        let before = changed_meta(rest, old);
        let after = changed_meta(tabs, old);
        lemma_sets_meta(rest, old, key);
        if sets_meta(after, key) {
            let i = choose|i: int| 0 <= i < after.len() && (#[trigger] after[i]).0 == key;
            if i < before.len() {
                assert(before[i].0 == key);
                let k = choose|k: int|
                    0 <= k < rest.len() && #[trigger] meta_differs(rest, k, old, key);
                assert(meta_differs(tabs, k, old, key));
            } else {
                assert(meta_differs(tabs, rest.len() as int, old, key));
            }
        }
        if exists|i: int| 0 <= i < tabs.len() && #[trigger] meta_differs(tabs, i, old, key) {
            let i = choose|i: int| 0 <= i < tabs.len() && #[trigger] meta_differs(tabs, i, old, key);
            if i < rest.len() {
                assert(meta_differs(rest, i, old, key));
                let k = choose|k: int| 0 <= k < before.len() && (#[trigger] before[k]).0 == key;
                assert(after[k].0 == key);
            } else {
                assert(after[before.len() as int].0 == key);
            }
        }
    }
}

/// Metadata that is set one way is set the other way too.
proof fn lemma_meta_mirrors(x: Seq<TabView>, y: Seq<TabView>, key: Seq<char>)
    requires
        distinct_keys(x),
        distinct_keys(y),
        sets_meta(changed_meta(x, y), key),
    ensures
        sets_meta(changed_meta(y, x), key),
{
    lemma_sets_meta(x, y, key);
    lemma_sets_meta(y, x, key);
    let i = choose|i: int| 0 <= i < x.len() && #[trigger] meta_differs(x, i, y, key);
    lemma_finds_itself(x, i);
    lemma_first_keyed(y, key);
    let o = first_keyed(y, key)->0;
    let j = choose|j: int| 0 <= j < y.len() && y[j] == o;
    assert(meta_differs(y, j, x, key));
}

/// Whether tab `i`, known by `key`, has to be spawned anew.
pub open spec fn respawns_at(tabs: Seq<TabView>, i: int, old: Seq<TabView>, key: Seq<char>) -> bool {
    &&& tabs[i].key == key
    &&& first_keyed(old, key) is Some
    &&& needs_respawn(tabs[i], first_keyed(old, key)->0)
}

proof fn lemma_respawned(tabs: Seq<TabView>, old: Seq<TabView>, key: Seq<char>)
    ensures
        has_key(respawned(tabs, old), key) <==> exists|i: int|
            0 <= i < tabs.len() && #[trigger] respawns_at(tabs, i, old, key),
    decreases tabs.len(),
{
    if tabs.len() > 0 {
        let rest = tabs.drop_last();
        let before = respawned(rest, old);
        let after = respawned(tabs, old);
        lemma_respawned(rest, old, key);
        if has_key(after, key) {
            let i = choose|i: int| 0 <= i < after.len() && (#[trigger] after[i]).key == key;
            if i < before.len() {
                assert(before[i].key == key);
                let k = choose|k: int|
                    0 <= k < rest.len() && #[trigger] respawns_at(rest, k, old, key);
                assert(respawns_at(tabs, k, old, key));
            } else {
                assert(respawns_at(tabs, rest.len() as int, old, key));
            }
        }
        if exists|i: int| 0 <= i < tabs.len() && #[trigger] respawns_at(tabs, i, old, key) {
            let i = choose|i: int| 0 <= i < tabs.len() && #[trigger] respawns_at(tabs, i, old, key);
            if i < rest.len() {
                assert(respawns_at(rest, i, old, key));
                let k = choose|k: int| 0 <= k < before.len() && (#[trigger] before[k]).key == key;
                assert(after[k].key == key);
            } else {
                assert(after[before.len() as int].key == key);
            }
        }
    }
}

/// A terminal that is spawned anew one way is spawned anew the other way too.
proof fn lemma_respawns_mirror(x: Seq<TabView>, y: Seq<TabView>, key: Seq<char>)
    requires
        distinct_keys(x),
        distinct_keys(y),
        has_key(respawned(x, y), key),
    ensures
        has_key(respawned(y, x), key),
{
    lemma_respawned(x, y, key);
    lemma_respawned(y, x, key);
    let i = choose|i: int| 0 <= i < x.len() && #[trigger] respawns_at(x, i, y, key);
    lemma_finds_itself(x, i);
    lemma_first_keyed(y, key);
    let o = first_keyed(y, key)->0;
    let j = choose|j: int| 0 <= j < y.len() && y[j] == o;
    assert(respawns_at(y, j, x, key));
}

/// What turns one window into another, and what turns it back.
proof fn lemma_changes_mirror(o: WindowView, n: WindowView)
    requires
        distinct_keys(o.tabs),
        distinct_keys(n.tabs),
    ensures
        forall|key: Seq<char>|
            #[trigger] sets_meta(changes(o, n).set_meta, key) <==> sets_meta(
                changes(n, o).set_meta,
                key,
            ),
        forall|key: Seq<char>|
            #[trigger] has_key(changes(o, n).respawn_tabs, key) <==> has_key(
                changes(n, o).respawn_tabs,
                key,
            ),
        changes(o, n).remove_tabs == keys_of(changes(n, o).add_tabs),
        changes(n, o).remove_tabs == keys_of(changes(o, n).add_tabs),
        differs(o, n) <==> differs(n, o),
{
    let u = changes(o, n);
    let v = changes(n, o);
    assert forall|key: Seq<char>|
        #[trigger] sets_meta(u.set_meta, key) <==> sets_meta(v.set_meta, key) by {
        if sets_meta(u.set_meta, key) {
            lemma_meta_mirrors(n.tabs, o.tabs, key);
        }
        if sets_meta(v.set_meta, key) {
            lemma_meta_mirrors(o.tabs, n.tabs, key);
        }
    }
    if u.set_meta.len() > 0 {
        assert(sets_meta(u.set_meta, u.set_meta[0].0));
    }
    if v.set_meta.len() > 0 {
        assert(sets_meta(v.set_meta, v.set_meta[0].0));
        assert(sets_meta(u.set_meta, v.set_meta[0].0));
    }
    assert forall|key: Seq<char>|
        #[trigger] has_key(u.respawn_tabs, key) <==> has_key(v.respawn_tabs, key) by {
        if has_key(u.respawn_tabs, key) {
            lemma_respawns_mirror(n.tabs, o.tabs, key);
        }
        if has_key(v.respawn_tabs, key) {
            lemma_respawns_mirror(o.tabs, n.tabs, key);
        }
    }
    if u.respawn_tabs.len() > 0 {
        assert(has_key(u.respawn_tabs, u.respawn_tabs[0].key));
    }
    if v.respawn_tabs.len() > 0 {
        assert(has_key(v.respawn_tabs, v.respawn_tabs[0].key));
        assert(has_key(u.respawn_tabs, v.respawn_tabs[0].key));
    }
}

/// The update of a window is what turns the old one into the new one, where
/// that is anything.
proof fn lemma_updated(windows: Seq<WindowView>, old: Seq<WindowView>, title: Seq<char>)
    ensures
        match updated(updates(windows, old), title) {
            Some(u) => exists|i: int|
                {
                    &&& 0 <= i < windows.len()
                    &&& (#[trigger] windows[i]).title == title
                    &&& first_titled(old, title) is Some
                    &&& differs(first_titled(old, title)->0, windows[i])
                    &&& u == changes(first_titled(old, title)->0, windows[i])
                },
            None => forall|i: int|
                0 <= i < windows.len() && (#[trigger] windows[i]).title == title ==> (first_titled(
                    old,
                    title,
                ) matches Some(o) ==> !differs(o, windows[i])),
        },
    decreases windows.len(),
{
    if windows.len() > 0 {
        let rest = windows.drop_last();
        let n = windows.last();
        let before = updates(rest, old);
        let after = updates(windows, old);
        lemma_updated(rest, old, title);
        match first_titled(old, n.title) {
            Some(o) => if differs(o, n) {
                assert(after.drop_last() =~= before);
                assert(windows[rest.len() as int] == n);
            },
            None => {},
        }
        match updated(before, title) {
            Some(u) => {
                let i = choose|i: int|
                    {
                        &&& 0 <= i < rest.len()
                        &&& (#[trigger] rest[i]).title == title
                        &&& first_titled(old, title) is Some
                        &&& differs(first_titled(old, title)->0, rest[i])
                        &&& u == changes(first_titled(old, title)->0, rest[i])
                    };
                assert(windows[i] == rest[i]);
            },
            None => {
                if updated(after, title) is None {
                    assert forall|i: int|
                        0 <= i < windows.len() && (#[trigger] windows[i]).title == title implies (
                    first_titled(old, title) matches Some(o) ==> !differs(o, windows[i])) by {
                        if i < rest.len() {
                            assert(rest[i] == windows[i]);
                        }
                    }
                }
            },
        }
    }
}

/// The update of a window that both configurations hold.
proof fn lemma_updated_between(
    a: Seq<WindowView>,
    b: Seq<WindowView>,
    i: int,
    j: int,
)
    requires
        distinct_titles(a),
        distinct_titles(b),
        0 <= i < a.len(),
        0 <= j < b.len(),
        a[i].title == b[j].title,
    ensures
        updated(updates(b, a), b[j].title) == (if differs(a[i], b[j]) {
            Some(changes(a[i], b[j]))
        } else {
            None
        }),
{
    let title = b[j].title;
    lemma_updated(b, a, title);
    lemma_window_finds_itself(a, i);
    match updated(updates(b, a), title) {
        Some(u) => {
            let k = choose|k: int|
                {
                    &&& 0 <= k < b.len()
                    &&& (#[trigger] b[k]).title == title
                    &&& first_titled(a, title) is Some
                    &&& differs(first_titled(a, title)->0, b[k])
                    &&& u == changes(first_titled(a, title)->0, b[k])
                };
            lemma_window_finds_itself(b, j);
            lemma_window_finds_itself(b, k);
            assert(b[k] == b[j]);
        },
        None => {},
    }
}

/// Going back from `b` to `a` mirrors going from `a` to `b`. What closes one
/// way is what opens the other way, in order. A window that is updated one way
/// is updated the other way too; the tabs that go one way are those that come
/// the other way, in order, and metadata is set and terminals are spawned anew
/// for the same tabs.
pub proof fn law_going_back_mirrors(
    a: ConfigView,
    b: ConfigView,
    title: Seq<char>,
    key: Seq<char>,
)
    requires
        well_formed(a),
        well_formed(b),
    ensures
        difference(a, b).close == titles_of(difference(b, a).open),
        difference(b, a).close == titles_of(difference(a, b).open),
        match (updated(difference(a, b).update, title), updated(difference(b, a).update, title)) {
            (Some(u), Some(v)) => {
                &&& u.remove_tabs == keys_of(v.add_tabs)
                &&& v.remove_tabs == keys_of(u.add_tabs)
                &&& sets_meta(u.set_meta, key) <==> sets_meta(v.set_meta, key)
                &&& has_key(u.respawn_tabs, key) <==> has_key(v.respawn_tabs, key)
            },
            (None, None) => true,
            _ => false,
        },
{
    let x = a.windows;
    let y = b.windows;
    lemma_titles_left(x, y);
    lemma_titles_left(y, x);
    lemma_updated(y, x, title);
    lemma_updated(x, y, title);
    lemma_first_titled(x, title);
    lemma_first_titled(y, title);
    if has_title(x, title) && has_title(y, title) {
        let i = choose|i: int| 0 <= i < x.len() && (#[trigger] x[i]).title == title;
        let j = choose|j: int| 0 <= j < y.len() && (#[trigger] y[j]).title == title;
        lemma_updated_between(x, y, i, j);
        lemma_updated_between(y, x, j, i);
        lemma_changes_mirror(x[i], y[j]);
        lemma_changes_mirror(y[j], x[i]);
    } else {
        assert(updated(updates(y, x), title) is None);
        assert(updated(updates(x, y), title) is None);
    }
}

} // verus!
