//! What holds of every configuration that resolves.

use crate::model::{ConfigView, RootView, TabView, WindowView};
use crate::paths::tilde_expanded;
use crate::raw::{RawConfigView, RawGroupView, RawRootView, RawTabView, RawWindowView};
use crate::resolve::{
    cascaded, checks_upto, config_of, groups_from, has_key, has_title, outcome_at, root_of,
    roots_from, scope_of, sections_of, tab_of, tabs_from, window_checks, window_of, windows_from,
    ResolveErrorView, Scope, Sectioned,
};
use crate::text::{is_blank, is_white_space, trimmed, trimmed_end, trimmed_start};
use vstd::prelude::*;

verus! {

/// No two tabs share an identity.
pub open spec fn distinct_keys(tabs: Seq<TabView>) -> bool {
    forall|i: int, j: int|
        0 <= i < j < tabs.len() ==> (#[trigger] tabs[i]).key != (#[trigger] tabs[j]).key
}

/// No two windows share a title.
pub open spec fn distinct_titles(windows: Seq<WindowView>) -> bool {
    forall|i: int, j: int|
        0 <= i < j < windows.len() ==> (#[trigger] windows[i]).title != (
        #[trigger] windows[j]).title
}

/// No two roots share a name.
pub open spec fn distinct_names(roots: Seq<RootView>) -> bool {
    forall|i: int, j: int|
        0 <= i < j < roots.len() ==> (#[trigger] roots[i]).name != (#[trigger] roots[j]).name
}

/// A setting is either absent or says something.
pub open spec fn unset_or_said(o: Option<Seq<char>>) -> bool {
    o matches Some(s) ==> !is_blank(s)
}

/// A written tab and the section it stands in.
pub ghost struct Written {
    pub tab: RawTabView,
    pub group: Option<Seq<char>>,
}

/// The tabs of one section, each with its group.
pub open spec fn written_in(tabs: Seq<RawTabView>, group: Option<Seq<char>>) -> Seq<Written> {
    Seq::new(tabs.len(), |i: int| Written { tab: tabs[i], group })
}

/// The tabs of the groups `i..`, in file order.
pub open spec fn written_groups(groups: Seq<RawGroupView>, i: int) -> Seq<Written>
    decreases groups.len() - i,
{
    if i >= groups.len() {
        Seq::empty()
    } else {
        written_in(groups[i].tabs, Some(trimmed(groups[i].name))) + written_groups(groups, i + 1)
    }
}

/// Every tab written in a window: the loose ones first, then each group's.
pub open spec fn written_tabs(w: RawWindowView) -> Seq<Written> {
    written_in(w.tabs, None) + written_groups(w.groups, 0)
}

/// Whether `tabs` are what `ws` resolve to, one for one.
pub open spec fn resolved_one_for_one(
    tabs: Seq<TabView>,
    ws: Seq<Written>,
    w: RawWindowView,
    sc: Scope,
) -> bool {
    &&& tabs.len() == ws.len()
    &&& forall|i: int|
        0 <= i < ws.len() ==> tab_of((#[trigger] ws[i]).tab, ws[i].group, w, sc) == Ok::<
            TabView,
            ResolveErrorView,
        >(tabs[i])
}

proof fn lemma_tabs_from(
    tabs: Seq<TabView>,
    raws: Seq<RawTabView>,
    i: int,
    group: Option<Seq<char>>,
    w: RawWindowView,
    sc: Scope,
    done: Seq<Written>,
)
    requires
        0 <= i <= raws.len(),
        distinct_keys(tabs),
        resolved_one_for_one(tabs, done, w, sc),
        tabs_from(tabs, raws, i, group, w, sc) is Ok,
    ensures
        distinct_keys(tabs_from(tabs, raws, i, group, w, sc)->Ok_0),
        resolved_one_for_one(
            tabs_from(tabs, raws, i, group, w, sc)->Ok_0,
            done + written_in(raws, group).skip(i),
            w,
            sc,
        ),
    decreases raws.len() - i,
{
    if i < raws.len() {
        let t = tab_of(raws[i], group, w, sc)->Ok_0;
        let next = tabs.push(t);
        let here = Written { tab: raws[i], group };
        assert forall|a: int, b: int| 0 <= a < b < next.len() implies (#[trigger] next[a]).key != (
        #[trigger] next[b]).key by {
            if b == tabs.len() {
                assert(next[a] == tabs[a]);
            }
        }
        lemma_tabs_from(next, raws, i + 1, group, w, sc, done.push(here));
        assert(done.push(here) + written_in(raws, group).skip(i + 1) =~= done + written_in(
            raws,
            group,
        ).skip(i));
    } else {
        assert(done + written_in(raws, group).skip(i) =~= done);
    }
}

/// Every tab is loose or in one of the named sections.
pub open spec fn groups_named(tabs: Seq<TabView>, names: Seq<Seq<char>>) -> bool {
    forall|i: int|
        0 <= i < tabs.len() ==> ((#[trigger] tabs[i]).group matches Some(g) ==> names.contains(g))
}

proof fn lemma_groups_named_tabs(
    tabs: Seq<TabView>,
    raws: Seq<RawTabView>,
    i: int,
    group: Option<Seq<char>>,
    w: RawWindowView,
    sc: Scope,
    names: Seq<Seq<char>>,
)
    requires
        0 <= i <= raws.len(),
        groups_named(tabs, names),
        group matches Some(g) ==> names.contains(g),
        tabs_from(tabs, raws, i, group, w, sc) is Ok,
    ensures
        groups_named(tabs_from(tabs, raws, i, group, w, sc)->Ok_0, names),
    decreases raws.len() - i,
{
    if i < raws.len() {
        let t = tab_of(raws[i], group, w, sc)->Ok_0;
        lemma_groups_named_tabs(tabs.push(t), raws, i + 1, group, w, sc, names);
    }
}

proof fn lemma_groups_from(
    s: Sectioned,
    groups: Seq<RawGroupView>,
    i: int,
    w: RawWindowView,
    sc: Scope,
    done: Seq<Written>,
)
    requires
        0 <= i <= groups.len(),
        distinct_keys(s.tabs),
        s.names.no_duplicates(),
        groups_named(s.tabs, s.names),
        resolved_one_for_one(s.tabs, done, w, sc),
        groups_from(s, groups, i, w, sc) is Ok,
    ensures
        ({
            let r = groups_from(s, groups, i, w, sc)->Ok_0;
            &&& distinct_keys(r.tabs)
            &&& r.names.no_duplicates()
            &&& groups_named(r.tabs, r.names)
            &&& resolved_one_for_one(r.tabs, done + written_groups(groups, i), w, sc)
        }),
    decreases groups.len() - i,
{
    if i < groups.len() {
        let name = trimmed(groups[i].name);
        let tabs = tabs_from(s.tabs, groups[i].tabs, 0, Some(name), w, sc)->Ok_0;
        let names = s.names.push(name);
        let here = written_in(groups[i].tabs, Some(name));
        lemma_tabs_from(s.tabs, groups[i].tabs, 0, Some(name), w, sc, done);
        assert(here.skip(0) =~= here);
        assert forall|k: int| 0 <= k < s.tabs.len() implies (
        (#[trigger] s.tabs[k]).group matches Some(g) ==> names.contains(g)) by {
            if s.tabs[k].group is Some {
                let g = s.tabs[k].group->0;
                let at = choose|x: int| 0 <= x < s.names.len() && s.names[x] == g;
                assert(names[at] == g);
            }
        }
        assert(names[s.names.len() as int] == name);
        lemma_groups_named_tabs(s.tabs, groups[i].tabs, 0, Some(name), w, sc, names);
        lemma_groups_from(Sectioned { tabs, names }, groups, i + 1, w, sc, done + here);
        assert((done + here) + written_groups(groups, i + 1) =~= done + (here + written_groups(
            groups,
            i + 1,
        )));
    } else {
        assert(done + written_groups(groups, i) =~= done);
    }
}

proof fn lemma_sections(w: RawWindowView, sc: Scope)
    requires
        sections_of(w, sc) is Ok,
    ensures
        ({
            let r = sections_of(w, sc)->Ok_0;
            &&& distinct_keys(r.tabs)
            &&& r.names.no_duplicates()
            &&& groups_named(r.tabs, r.names)
            &&& resolved_one_for_one(r.tabs, written_tabs(w), w, sc)
        }),
{
    let loose = tabs_from(Seq::empty(), w.tabs, 0, None, w, sc)->Ok_0;
    lemma_tabs_from(Seq::empty(), w.tabs, 0, None, w, sc, Seq::empty());
    lemma_groups_named_tabs(Seq::empty(), w.tabs, 0, None, w, sc, Seq::empty());
    let here = written_in(w.tabs, None);
    assert(Seq::<Written>::empty() + here.skip(0) =~= here);
    lemma_groups_from(
        Sectioned { tabs: loose, names: Seq::empty() },
        w.groups,
        0,
        w,
        sc,
        here,
    );
}

proof fn lemma_roots_from(
    roots: Seq<RootView>,
    names: Seq<Seq<char>>,
    raws: Seq<RawRootView>,
    i: int,
    w: RawWindowView,
    sc: Scope,
    groups: Seq<Seq<char>>,
)
    requires
        0 <= i <= raws.len(),
        distinct_names(roots),
        forall|k: int| 0 <= k < roots.len() ==> names.contains((#[trigger] roots[k]).name),
        forall|k: int| 0 <= k < roots.len() ==> !groups.contains((#[trigger] roots[k]).name),
        forall|k: int| 0 <= k < groups.len() ==> names.contains(#[trigger] groups[k]),
        roots.len() == i,
        forall|k: int|
            0 <= k < i ==> root_of(#[trigger] raws[k], w, sc) == Ok::<RootView, ResolveErrorView>(
                roots[k],
            ),
        roots_from(roots, names, raws, i, w, sc) is Ok,
    ensures
        ({
            let r = roots_from(roots, names, raws, i, w, sc)->Ok_0;
            &&& distinct_names(r)
            &&& forall|k: int| 0 <= k < r.len() ==> !groups.contains((#[trigger] r[k]).name)
            &&& r.len() == raws.len()
            &&& forall|k: int|
                0 <= k < raws.len() ==> root_of(#[trigger] raws[k], w, sc) == Ok::<
                    RootView,
                    ResolveErrorView,
                >(r[k])
        }),
    decreases raws.len() - i,
{
    if i < raws.len() {
        let r = root_of(raws[i], w, sc)->Ok_0;
        let next = roots.push(r);
        let more = names.push(r.name);
        assert(more[names.len() as int] == r.name);
        assert forall|x: Seq<char>| names.contains(x) implies more.contains(x) by {
            let at = choose|k: int| 0 <= k < names.len() && names[k] == x;
            assert(more[at] == x);
        }
        if groups.contains(r.name) {
            let at = choose|k: int| 0 <= k < groups.len() && groups[k] == r.name;
            assert(names.contains(groups[at]));
        }
        lemma_roots_from(next, more, raws, i + 1, w, sc, groups);
    }
}

/// Within a resolved window every tab has an identity of its own.
pub proof fn law_tab_identities_are_unique(w: RawWindowView, sc: Scope)
    requires
        window_of(w, sc) is Ok,
    ensures
        distinct_keys(window_of(w, sc)->Ok_0.tabs),
{
    lemma_sections(w, sc);
}

/// The tabs of a resolved window are those that are written in it, one for
/// one: the loose tabs first, then each group's, all in file order and each
/// carrying the trimmed name of its group.
pub proof fn law_tabs_keep_file_order(w: RawWindowView, sc: Scope)
    requires
        window_of(w, sc) is Ok,
    ensures
        resolved_one_for_one(window_of(w, sc)->Ok_0.tabs, written_tabs(w), w, sc),
{
    lemma_sections(w, sc);
}

/// The roots of a resolved window are those that are written in it, one for
/// one and in file order.
pub proof fn law_roots_keep_file_order(w: RawWindowView, sc: Scope)
    requires
        window_of(w, sc) is Ok,
    ensures
        window_of(w, sc)->Ok_0.roots.len() == w.roots.len(),
        forall|i: int|
            0 <= i < w.roots.len() ==> root_of(#[trigger] w.roots[i], w, sc) == Ok::<
                RootView,
                ResolveErrorView,
            >(window_of(w, sc)->Ok_0.roots[i]),
{
    lemma_sections(w, sc);
    let names = sections_of(w, sc)->Ok_0.names;
    assert forall|k: int| 0 <= k < names.len() implies names.contains(#[trigger] names[k]) by {}
    lemma_roots_from(Seq::empty(), names, w.roots, 0, w, sc, names);
}

/// The sections of a resolved window have names of their own: no two roots
/// share one, and no tab stands in a group named like a root.
pub proof fn law_section_names_are_unique(w: RawWindowView, sc: Scope)
    requires
        window_of(w, sc) is Ok,
    ensures
        ({
            let v = window_of(w, sc)->Ok_0;
            &&& distinct_names(v.roots)
            &&& forall|i: int, j: int|
                0 <= i < v.tabs.len() && 0 <= j < v.roots.len() ==> (#[trigger] v.tabs[i]).group
                    != Some((#[trigger] v.roots[j]).name)
        }),
{
    lemma_sections(w, sc);
    let names = sections_of(w, sc)->Ok_0.names;
    assert forall|k: int| 0 <= k < names.len() implies names.contains(#[trigger] names[k]) by {}
    lemma_roots_from(Seq::empty(), names, w.roots, 0, w, sc, names);
}

/// A resolved window has an area, and what it and its tabs and roots are set
/// to run is never blank.
pub proof fn law_window_settings_say_something(w: RawWindowView, sc: Scope)
    requires
        window_of(w, sc) is Ok,
    ensures
        ({
            let v = window_of(w, sc)->Ok_0;
            &&& v.width > 0
            &&& v.height > 0
            &&& forall|i: int|
                0 <= i < v.tabs.len() ==> {
                    &&& unset_or_said((#[trigger] v.tabs[i]).startup)
                    &&& unset_or_said(v.tabs[i].probe)
                    &&& unset_or_said(v.tabs[i].kill)
                    &&& v.tabs[i].shell == sc.default_shell || !is_blank(v.tabs[i].shell)
                }
            &&& forall|i: int|
                0 <= i < v.roots.len() ==> {
                    &&& (#[trigger] v.roots[i]).depth > 0
                    &&& unset_or_said(v.roots[i].startup)
                    &&& unset_or_said(v.roots[i].probe)
                    &&& unset_or_said(v.roots[i].kill)
                    &&& v.roots[i].shell == sc.default_shell || !is_blank(v.roots[i].shell)
                }
        }),
{
    let v = window_of(w, sc)->Ok_0;
    law_tabs_keep_file_order(w, sc);
    law_roots_keep_file_order(w, sc);
    let ws = written_tabs(w);
    assert forall|i: int| 0 <= i < v.tabs.len() implies {
        &&& unset_or_said((#[trigger] v.tabs[i]).startup)
        &&& unset_or_said(v.tabs[i].probe)
        &&& unset_or_said(v.tabs[i].kill)
        &&& v.tabs[i].shell == sc.default_shell || !is_blank(v.tabs[i].shell)
    } by {
        assert(tab_of(ws[i].tab, ws[i].group, w, sc) == Ok::<TabView, ResolveErrorView>(
            v.tabs[i],
        ));
    }
    assert forall|i: int| 0 <= i < v.roots.len() implies {
        &&& (#[trigger] v.roots[i]).depth > 0
        &&& unset_or_said(v.roots[i].startup)
        &&& unset_or_said(v.roots[i].probe)
        &&& unset_or_said(v.roots[i].kill)
        &&& v.roots[i].shell == sc.default_shell || !is_blank(v.roots[i].shell)
    } by {
        assert(root_of(w.roots[i], w, sc) == Ok::<RootView, ResolveErrorView>(v.roots[i]));
    }
}

proof fn lemma_windows_from(
    windows: Seq<WindowView>,
    raws: Seq<RawWindowView>,
    i: int,
    sc: Scope,
)
    requires
        0 <= i <= raws.len(),
        windows.len() == i,
        distinct_titles(windows),
        forall|k: int|
            0 <= k < i ==> {
                &&& window_of(#[trigger] raws[k], sc) == Ok::<WindowView, ResolveErrorView>(
                    windows[k],
                )
                &&& !is_blank(raws[k].title)
            },
        windows_from(windows, raws, i, sc) is Ok,
    ensures
        ({
            let r = windows_from(windows, raws, i, sc)->Ok_0;
            &&& r.len() == raws.len()
            &&& distinct_titles(r)
            &&& forall|k: int|
                0 <= k < raws.len() ==> {
                    &&& window_of(#[trigger] raws[k], sc) == Ok::<WindowView, ResolveErrorView>(
                        r[k],
                    )
                    &&& !is_blank(raws[k].title)
                }
        }),
    decreases raws.len() - i,
{
    if i < raws.len() {
        let w = window_of(raws[i], sc)->Ok_0;
        lemma_windows_from(windows.push(w), raws, i + 1, sc);
    }
}

/// The windows of a resolved configuration are those that are written, one for
/// one and in file order.
pub proof fn law_windows_keep_file_order(
    raw: RawConfigView,
    default_shell: Seq<char>,
    home: Option<Seq<char>>,
)
    requires
        config_of(raw, default_shell, home) is Ok,
    ensures
        ({
            let c = config_of(raw, default_shell, home)->Ok_0;
            &&& c.windows.len() == raw.windows.len()
            &&& forall|k: int|
                0 <= k < raw.windows.len() ==> window_of(
                    #[trigger] raw.windows[k],
                    scope_of(raw, default_shell, home),
                ) == Ok::<WindowView, ResolveErrorView>(c.windows[k])
        }),
{
    lemma_windows_from(Seq::empty(), raw.windows, 0, scope_of(raw, default_shell, home));
}

/// The windows of a resolved configuration have titles of their own, none of
/// them blank.
pub proof fn law_window_titles_are_unique(
    raw: RawConfigView,
    default_shell: Seq<char>,
    home: Option<Seq<char>>,
)
    requires
        config_of(raw, default_shell, home) is Ok,
    ensures
        ({
            let c = config_of(raw, default_shell, home)->Ok_0;
            &&& distinct_titles(c.windows)
            &&& forall|k: int|
                0 <= k < c.windows.len() ==> {
                    &&& (#[trigger] c.windows[k]).title.len() > 0
                    &&& c.windows[k].title == trimmed(raw.windows[k].title)
                }
        }),
{
    let sc = scope_of(raw, default_shell, home);
    let c = config_of(raw, default_shell, home)->Ok_0;
    lemma_windows_from(Seq::empty(), raw.windows, 0, sc);
    assert forall|k: int| 0 <= k < c.windows.len() implies {
        &&& (#[trigger] c.windows[k]).title.len() > 0
        &&& c.windows[k].title == trimmed(raw.windows[k].title)
    } by {
        assert(window_of(raw.windows[k], sc) == Ok::<WindowView, ResolveErrorView>(c.windows[k]));
    }
}

/// The nearest level that is set decides: a blank value there means none,
/// whatever the levels further out say.
pub proof fn law_nearest_level_wins(
    near: Seq<char>,
    window: Option<Seq<char>>,
    global: Option<Seq<char>>,
)
    ensures
        is_blank(near) ==> cascaded(Some(near), window, global) is None,
        !is_blank(near) ==> cascaded(Some(near), window, global) == Some(near),
        cascaded(None, Some(near), global) == cascaded(Some(near), window, global),
        cascaded(None, None, Some(near)) == cascaded(Some(near), window, global),
{
}

/// What is on disk decides about warnings only: neither whether a
/// configuration is valid nor what it resolves to.
pub proof fn law_missing_dirs_only_warn(
    raw: RawConfigView,
    default_shell: Seq<char>,
    home: Option<Seq<char>>,
    present: Seq<bool>,
    absent: Seq<bool>,
)
    ensures
        match (
            outcome_at(raw, default_shell, home, present),
            outcome_at(raw, default_shell, home, absent),
        ) {
            (Ok(a), Ok(b)) => a.0 == b.0,
            (Err(a), Err(b)) => a == b,
            _ => false,
        },
{
}

/// Whether a directory is written without a `~` in front.
pub open spec fn no_tilde(dir: Seq<char>) -> bool {
    trimmed(dir).len() == 0 || trimmed(dir)[0] != '~'
}

/// Whether no directory of a window is written with a `~` in front.
pub open spec fn window_without_tilde(w: RawWindowView) -> bool {
    &&& forall|i: int| 0 <= i < w.tabs.len() ==> no_tilde((#[trigger] w.tabs[i]).dir)
    &&& forall|i: int, j: int|
        0 <= i < w.groups.len() && 0 <= j < w.groups[i].tabs.len() ==> no_tilde(
            (#[trigger] w.groups[i].tabs[j]).dir,
        )
    &&& forall|i: int| 0 <= i < w.roots.len() ==> no_tilde((#[trigger] w.roots[i]).dir)
}

proof fn lemma_same_tabs(
    tabs: Seq<TabView>,
    raws: Seq<RawTabView>,
    i: int,
    group: Option<Seq<char>>,
    w: RawWindowView,
    a: Scope,
    b: Scope,
)
    requires
        0 <= i <= raws.len(),
        a == (Scope { home: a.home, ..b }),
        forall|k: int| 0 <= k < raws.len() ==> no_tilde((#[trigger] raws[k]).dir),
    ensures
        tabs_from(tabs, raws, i, group, w, a) == tabs_from(tabs, raws, i, group, w, b),
    decreases raws.len() - i,
{
    if i < raws.len() {
        assert(no_tilde(raws[i].dir));
        assert(tilde_expanded(trimmed(raws[i].dir), a.home) == tilde_expanded(
            trimmed(raws[i].dir),
            b.home,
        ) || is_blank(raws[i].dir));
        assert(tab_of(raws[i], group, w, a) == tab_of(raws[i], group, w, b));
        if tab_of(raws[i], group, w, a) is Ok {
            let t = tab_of(raws[i], group, w, a)->Ok_0;
            lemma_same_tabs(tabs.push(t), raws, i + 1, group, w, a, b);
        }
    }
}

proof fn lemma_same_groups(
    s: Sectioned,
    groups: Seq<RawGroupView>,
    i: int,
    w: RawWindowView,
    a: Scope,
    b: Scope,
)
    requires
        0 <= i <= groups.len(),
        a == (Scope { home: a.home, ..b }),
        forall|k: int, j: int|
            0 <= k < groups.len() && 0 <= j < groups[k].tabs.len() ==> no_tilde(
                (#[trigger] groups[k].tabs[j]).dir,
            ),
    ensures
        groups_from(s, groups, i, w, a) == groups_from(s, groups, i, w, b),
    decreases groups.len() - i,
{
    if i < groups.len() {
        let name = trimmed(groups[i].name);
        lemma_same_tabs(s.tabs, groups[i].tabs, 0, Some(name), w, a, b);
        let r = tabs_from(s.tabs, groups[i].tabs, 0, Some(name), w, a);
        if r is Ok {
            lemma_same_groups(
                Sectioned { tabs: r->Ok_0, names: s.names.push(name) },
                groups,
                i + 1,
                w,
                a,
                b,
            );
        }
    }
}

proof fn lemma_same_roots(
    roots: Seq<RootView>,
    names: Seq<Seq<char>>,
    raws: Seq<RawRootView>,
    i: int,
    w: RawWindowView,
    a: Scope,
    b: Scope,
)
    requires
        0 <= i <= raws.len(),
        a == (Scope { home: a.home, ..b }),
        forall|k: int| 0 <= k < raws.len() ==> no_tilde((#[trigger] raws[k]).dir),
    ensures
        roots_from(roots, names, raws, i, w, a) == roots_from(roots, names, raws, i, w, b),
    decreases raws.len() - i,
{
    if i < raws.len() {
        assert(no_tilde(raws[i].dir));
        assert(root_of(raws[i], w, a) == root_of(raws[i], w, b));
        if root_of(raws[i], w, a) is Ok {
            let r = root_of(raws[i], w, a)->Ok_0;
            lemma_same_roots(roots.push(r), names.push(r.name), raws, i + 1, w, a, b);
        }
    }
}

proof fn lemma_same_windows(
    windows: Seq<WindowView>,
    raws: Seq<RawWindowView>,
    i: int,
    a: Scope,
    b: Scope,
)
    requires
        0 <= i <= raws.len(),
        a == (Scope { home: a.home, ..b }),
        forall|k: int| 0 <= k < raws.len() ==> window_without_tilde(#[trigger] raws[k]),
    ensures
        windows_from(windows, raws, i, a) == windows_from(windows, raws, i, b),
    decreases raws.len() - i,
{
    if i < raws.len() {
        let w = raws[i];
        assert(window_without_tilde(w));
        lemma_same_tabs(Seq::empty(), w.tabs, 0, None, w, a, b);
        let loose = tabs_from(Seq::empty(), w.tabs, 0, None, w, a);
        if loose is Ok {
            lemma_same_groups(
                Sectioned { tabs: loose->Ok_0, names: Seq::empty() },
                w.groups,
                0,
                w,
                a,
                b,
            );
        }
        let s = sections_of(w, a);
        if s is Ok {
            lemma_same_roots(Seq::empty(), s->Ok_0.names, w.roots, 0, w, a, b);
        }
        assert(window_of(w, a) == window_of(w, b));
        if window_of(w, a) is Ok {
            lemma_same_windows(windows.push(window_of(w, a)->Ok_0), raws, i + 1, a, b);
        }
    }
}

/// A configuration that writes no `~` resolves the same for every home
/// directory.
pub proof fn law_home_matters_only_for_tildes(
    raw: RawConfigView,
    default_shell: Seq<char>,
    home: Option<Seq<char>>,
    other: Option<Seq<char>>,
)
    requires
        forall|k: int|
            0 <= k < raw.windows.len() ==> window_without_tilde(#[trigger] raw.windows[k]),
    ensures
        config_of(raw, default_shell, home) == config_of(raw, default_shell, other),
{
    lemma_same_windows(
        Seq::empty(),
        raw.windows,
        0,
        scope_of(raw, default_shell, home),
        scope_of(raw, default_shell, other),
    );
}

/// Whether two shells are the same, or are the two to fall back on.
pub open spec fn shells_alike(x: Seq<char>, y: Seq<char>, s: Seq<char>, t: Seq<char>) -> bool {
    x == y || (x == s && y == t)
}

/// Whether tabs differ in nothing but the shells they fell back on.
pub open spec fn tabs_alike(x: Seq<TabView>, y: Seq<TabView>, s: Seq<char>, t: Seq<char>) -> bool {
    &&& x.len() == y.len()
    &&& forall|i: int|
        #![trigger x[i]]
        #![trigger y[i]]
        0 <= i < x.len() ==> {
            &&& y[i] == (TabView { shell: y[i].shell, ..x[i] })
            &&& shells_alike(x[i].shell, y[i].shell, s, t)
        }
}

/// Whether roots differ in nothing but the shells they fell back on.
pub open spec fn roots_alike(
    x: Seq<RootView>,
    y: Seq<RootView>,
    s: Seq<char>,
    t: Seq<char>,
) -> bool {
    &&& x.len() == y.len()
    &&& forall|i: int|
        #![trigger x[i]]
        #![trigger y[i]]
        0 <= i < x.len() ==> {
            &&& y[i] == (RootView { shell: y[i].shell, ..x[i] })
            &&& shells_alike(x[i].shell, y[i].shell, s, t)
        }
}

/// Whether windows differ in nothing but the shells that their tabs and roots
/// fell back on.
pub open spec fn windows_alike(
    x: Seq<WindowView>,
    y: Seq<WindowView>,
    s: Seq<char>,
    t: Seq<char>,
) -> bool {
    &&& x.len() == y.len()
    &&& forall|i: int|
        #![trigger x[i]]
        #![trigger y[i]]
        0 <= i < x.len() ==> {
            &&& y[i] == (WindowView { tabs: y[i].tabs, roots: y[i].roots, ..x[i] })
            &&& tabs_alike(x[i].tabs, y[i].tabs, s, t)
            &&& roots_alike(x[i].roots, y[i].roots, s, t)
        }
}

proof fn lemma_keys_alike(
    x: Seq<TabView>,
    y: Seq<TabView>,
    s: Seq<char>,
    t: Seq<char>,
    key: Seq<char>,
)
    requires
        tabs_alike(x, y, s, t),
    ensures
        has_key(x, key) == has_key(y, key),
{
    if has_key(x, key) {
        let i = choose|i: int| 0 <= i < x.len() && (#[trigger] x[i]).key == key;
        assert(y[i].key == key);
    }
    if has_key(y, key) {
        let i = choose|i: int| 0 <= i < y.len() && (#[trigger] y[i]).key == key;
        assert(x[i].key == key);
    }
}

proof fn lemma_tabs_alike(
    x: Seq<TabView>,
    y: Seq<TabView>,
    raws: Seq<RawTabView>,
    i: int,
    group: Option<Seq<char>>,
    w: RawWindowView,
    a: Scope,
    b: Scope,
)
    requires
        0 <= i <= raws.len(),
        b == (Scope { default_shell: b.default_shell, ..a }),
        tabs_alike(x, y, a.default_shell, b.default_shell),
    ensures
        match (tabs_from(x, raws, i, group, w, a), tabs_from(y, raws, i, group, w, b)) {
            (Ok(p), Ok(q)) => tabs_alike(p, q, a.default_shell, b.default_shell),
            (Err(e), Err(f)) => e == f,
            _ => false,
        },
    decreases raws.len() - i,
{
    if i < raws.len() {
        match (tab_of(raws[i], group, w, a), tab_of(raws[i], group, w, b)) {
            (Ok(p), Ok(q)) => {
                lemma_keys_alike(x, y, a.default_shell, b.default_shell, p.key);
                lemma_tabs_alike(x.push(p), y.push(q), raws, i + 1, group, w, a, b);
            },
            _ => {},
        }
    }
}

proof fn lemma_groups_alike(
    x: Sectioned,
    y: Sectioned,
    groups: Seq<RawGroupView>,
    i: int,
    w: RawWindowView,
    a: Scope,
    b: Scope,
)
    requires
        0 <= i <= groups.len(),
        b == (Scope { default_shell: b.default_shell, ..a }),
        tabs_alike(x.tabs, y.tabs, a.default_shell, b.default_shell),
        x.names == y.names,
    ensures
        match (groups_from(x, groups, i, w, a), groups_from(y, groups, i, w, b)) {
            (Ok(p), Ok(q)) => tabs_alike(p.tabs, q.tabs, a.default_shell, b.default_shell)
                && p.names == q.names,
            (Err(e), Err(f)) => e == f,
            _ => false,
        },
    decreases groups.len() - i,
{
    if i < groups.len() {
        let name = trimmed(groups[i].name);
        lemma_tabs_alike(x.tabs, y.tabs, groups[i].tabs, 0, Some(name), w, a, b);
        match (
            tabs_from(x.tabs, groups[i].tabs, 0, Some(name), w, a),
            tabs_from(y.tabs, groups[i].tabs, 0, Some(name), w, b),
        ) {
            (Ok(p), Ok(q)) => {
                lemma_groups_alike(
                    Sectioned { tabs: p, names: x.names.push(name) },
                    Sectioned { tabs: q, names: y.names.push(name) },
                    groups,
                    i + 1,
                    w,
                    a,
                    b,
                );
            },
            _ => {},
        }
    }
}

proof fn lemma_roots_alike(
    x: Seq<RootView>,
    y: Seq<RootView>,
    names: Seq<Seq<char>>,
    raws: Seq<RawRootView>,
    i: int,
    w: RawWindowView,
    a: Scope,
    b: Scope,
)
    requires
        0 <= i <= raws.len(),
        b == (Scope { default_shell: b.default_shell, ..a }),
        roots_alike(x, y, a.default_shell, b.default_shell),
    ensures
        match (roots_from(x, names, raws, i, w, a), roots_from(y, names, raws, i, w, b)) {
            (Ok(p), Ok(q)) => roots_alike(p, q, a.default_shell, b.default_shell),
            (Err(e), Err(f)) => e == f,
            _ => false,
        },
    decreases raws.len() - i,
{
    if i < raws.len() {
        match (root_of(raws[i], w, a), root_of(raws[i], w, b)) {
            (Ok(p), Ok(q)) => {
                lemma_roots_alike(x.push(p), y.push(q), names.push(p.name), raws, i + 1, w, a, b);
            },
            _ => {},
        }
    }
}

/// A window resolves alike for two fallback shells.
proof fn lemma_window_alike(w: RawWindowView, a: Scope, b: Scope)
    requires
        b == (Scope { default_shell: b.default_shell, ..a }),
    ensures
        match (window_of(w, a), window_of(w, b)) {
            (Ok(p), Ok(q)) => windows_alike(seq![p], seq![q], a.default_shell, b.default_shell),
            (Err(e), Err(f)) => e == f,
            _ => false,
        },
{
    let none = Seq::<TabView>::empty();
    lemma_tabs_alike(none, none, w.tabs, 0, None, w, a, b);
    match (tabs_from(none, w.tabs, 0, None, w, a), tabs_from(none, w.tabs, 0, None, w, b)) {
        (Ok(p), Ok(q)) => {
            lemma_groups_alike(
                Sectioned { tabs: p, names: Seq::empty() },
                Sectioned { tabs: q, names: Seq::empty() },
                w.groups,
                0,
                w,
                a,
                b,
            );
        },
        _ => {},
    }
    match (sections_of(w, a), sections_of(w, b)) {
        (Ok(p), Ok(q)) => {
            lemma_roots_alike(Seq::empty(), Seq::empty(), p.names, w.roots, 0, w, a, b);
        },
        _ => {},
    }
}

proof fn lemma_titles_alike(
    x: Seq<WindowView>,
    y: Seq<WindowView>,
    s: Seq<char>,
    t: Seq<char>,
    title: Seq<char>,
)
    requires
        windows_alike(x, y, s, t),
    ensures
        has_title(x, title) == has_title(y, title),
{
    if has_title(x, title) {
        let i = choose|i: int| 0 <= i < x.len() && (#[trigger] x[i]).title == title;
        assert(y[i].title == title);
    }
    if has_title(y, title) {
        let i = choose|i: int| 0 <= i < y.len() && (#[trigger] y[i]).title == title;
        assert(x[i].title == title);
    }
}

proof fn lemma_windows_alike(
    x: Seq<WindowView>,
    y: Seq<WindowView>,
    raws: Seq<RawWindowView>,
    i: int,
    a: Scope,
    b: Scope,
)
    requires
        0 <= i <= raws.len(),
        b == (Scope { default_shell: b.default_shell, ..a }),
        windows_alike(x, y, a.default_shell, b.default_shell),
    ensures
        match (windows_from(x, raws, i, a), windows_from(y, raws, i, b)) {
            (Ok(p), Ok(q)) => windows_alike(p, q, a.default_shell, b.default_shell),
            (Err(e), Err(f)) => e == f,
            _ => false,
        },
    decreases raws.len() - i,
{
    if i < raws.len() {
        let s = a.default_shell;
        let t = b.default_shell;
        lemma_titles_alike(x, y, s, t, trimmed(raws[i].title));
        lemma_window_alike(raws[i], a, b);
        match (window_of(raws[i], a), window_of(raws[i], b)) {
            (Ok(p), Ok(q)) => {
                assert(seq![p][0] == p && seq![q][0] == q);
                assert(windows_alike(x.push(p), y.push(q), s, t));
                lemma_windows_alike(x.push(p), y.push(q), raws, i + 1, a, b);
            },
            _ => {},
        }
    }
}

proof fn lemma_checks_alike(
    raws: Seq<RawWindowView>,
    x: Seq<WindowView>,
    y: Seq<WindowView>,
    n: int,
    s: Seq<char>,
    t: Seq<char>,
)
    requires
        windows_alike(x, y, s, t),
        0 <= n <= x.len(),
    ensures
        checks_upto(raws, x, n) == checks_upto(raws, y, n),
    decreases n,
{
    if n > 0 {
        lemma_checks_alike(raws, x, y, n - 1, s, t);
        let title = raws[n - 1].title;
        let v = x[n - 1];
        let w = y[n - 1];
        assert(tabs_alike(v.tabs, w.tabs, s, t));
        assert(roots_alike(v.roots, w.roots, s, t));
        assert(window_checks(title, v) =~= window_checks(title, w)) by {
            assert forall|j: int| 0 <= j < v.tabs.len() implies v.tabs[j].dir == (
            #[trigger] w.tabs[j]).dir by {}
            assert forall|j: int| 0 <= j < v.roots.len() implies v.roots[j].dir == (
            #[trigger] w.roots[j]).dir by {}
        }
    }
}

/// The shell to fall back on decides about shells alone: with two of them a
/// configuration fails with the same error, or gives the same warnings and the
/// same windows, where each tab and each root has one shell in both, or the
/// one fallback in the first and the other in the second.
pub proof fn law_fallback_decides_shells_alone(
    raw: RawConfigView,
    s: Seq<char>,
    t: Seq<char>,
    home: Option<Seq<char>>,
    present: Seq<bool>,
)
    ensures
        match (outcome_at(raw, s, home, present), outcome_at(raw, t, home, present)) {
            (Ok((c, u)), Ok((d, v))) => {
                &&& u == v
                &&& d == (ConfigView { windows: d.windows, ..c })
                &&& windows_alike(c.windows, d.windows, s, t)
            },
            (Err(e), Err(f)) => e == f,
            _ => false,
        },
{
    let a = scope_of(raw, s, home);
    let b = scope_of(raw, t, home);
    lemma_windows_alike(Seq::empty(), Seq::empty(), raw.windows, 0, a, b);
    match (config_of(raw, s, home), config_of(raw, t, home)) {
        (Ok(c), Ok(d)) => {
            lemma_checks_alike(raw.windows, c.windows, d.windows, c.windows.len() as int, s, t);
        },
        _ => {},
    }
}

proof fn lemma_trimmed_start_ends(s: Seq<char>)
    ensures
        trimmed_start(s).len() > 0 ==> !is_white_space(trimmed_start(s)[0]),
    decreases s.len(),
{
    if s.len() > 0 && is_white_space(s[0]) {
        lemma_trimmed_start_ends(s.skip(1));
    }
}

proof fn lemma_trimmed_end_ends(s: Seq<char>)
    ensures
        trimmed_end(s).len() > 0 ==> !is_white_space(trimmed_end(s).last()),
        trimmed_end(s).len() <= s.len(),
        trimmed_end(s) == s.take(trimmed_end(s).len() as int),
    decreases s.len(),
{
    if s.len() > 0 && is_white_space(s.last()) {
        lemma_trimmed_end_ends(s.drop_last());
        assert(s.drop_last().take(trimmed_end(s).len() as int) =~= s.take(
            trimmed_end(s).len() as int,
        ));
    } else {
        assert(s.take(s.len() as int) =~= s);
    }
}

/// Trimming twice is trimming once.
pub proof fn law_trim_is_idempotent(s: Seq<char>)
    ensures
        trimmed(trimmed(s)) == trimmed(s),
{
    let a = trimmed_start(s);
    let b = trimmed_end(a);
    lemma_trimmed_start_ends(s);
    lemma_trimmed_end_ends(a);
    if b.len() > 0 {
        assert(b[0] == a[0]);
    }
    assert(trimmed_start(b) == b);
    assert(trimmed_end(b) == b);
}

} // verus!
