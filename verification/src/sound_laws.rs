//! Which configurations resolve, and what is wrong with the others.

use crate::colour::{parsed, ColourErrorView};
use crate::model::{RootView, TabView, WindowView};
use crate::paths::{basename_of, dir_key, tilde_expanded};
use crate::raw::{RawConfigView, RawGroupView, RawRootView, RawTabView, RawWindowView};
use crate::resolve::{
    config_of, groups_from, has_key, has_title, roots_from, scope_of, sections_of, tabs_from,
    window_of, windows_from, ResolveErrorView, Scope, Sectioned,
};
use crate::resolve_laws::{written_groups, written_in, written_tabs, Written};
use crate::text::{is_blank, trimmed};
use vstd::prelude::*;

verus! {

/// Whether what is written of a tab is sound by itself: it has a directory, and
/// a title, where it has one, is not blank.
pub open spec fn sound_tab(rt: RawTabView) -> bool {
    !is_blank(rt.dir) && (rt.title is Some ==> !is_blank(rt.title->0))
}

/// What a tab is known by: the identity that it is given, or its directory.
pub open spec fn identity(rt: RawTabView, home: Option<Seq<char>>) -> Seq<char> {
    if rt.id is Some && !is_blank(rt.id->0) {
        trimmed(rt.id->0)
    } else {
        dir_key(tilde_expanded(trimmed(rt.dir), home))
    }
}

/// The identities of written tabs.
pub open spec fn identities(ws: Seq<Written>, home: Option<Seq<char>>) -> Seq<Seq<char>> {
    ws.map_values(|w: Written| identity(w.tab, home))
}

/// Whether written tabs are sound, known apart, and by nothing in `taken`.
pub open spec fn sound_tabs(
    ws: Seq<Written>,
    home: Option<Seq<char>>,
    taken: spec_fn(Seq<char>) -> bool,
) -> bool {
    &&& forall|i: int| 0 <= i < ws.len() ==> sound_tab((#[trigger] ws[i]).tab)
    &&& forall|i: int| 0 <= i < ws.len() ==> !taken(identity((#[trigger] ws[i]).tab, home))
    &&& identities(ws, home).no_duplicates()
}

/// The names of groups.
pub open spec fn group_names(groups: Seq<RawGroupView>) -> Seq<Seq<char>> {
    groups.map_values(|g: RawGroupView| trimmed(g.name))
}

/// Whether names say something, are told apart, and are none of `taken`.
pub open spec fn sound_names(names: Seq<Seq<char>>, taken: Seq<Seq<char>>) -> bool {
    &&& forall|i: int| 0 <= i < names.len() ==> (#[trigger] names[i]).len() > 0
    &&& forall|i: int| 0 <= i < names.len() ==> !taken.contains(#[trigger] names[i])
    &&& names.no_duplicates()
}

/// Whether what is written of a root is sound by itself.
pub open spec fn sound_root(rr: RawRootView) -> bool {
    &&& !is_blank(rr.dir)
    &&& rr.name is Some ==> !is_blank(rr.name->0)
    &&& rr.depth != Some(0u32)
}

/// What a root is called: by its name, or by that of its directory.
pub open spec fn root_name(rr: RawRootView, home: Option<Seq<char>>) -> Seq<char> {
    if rr.name is Some {
        trimmed(rr.name->0)
    } else {
        basename_of(tilde_expanded(trimmed(rr.dir), home))
    }
}

/// The names of roots.
pub open spec fn root_names(roots: Seq<RawRootView>, home: Option<Seq<char>>) -> Seq<Seq<char>> {
    roots.map_values(|r: RawRootView| root_name(r, home))
}

/// Whether what is written of a window is sound: its colour is one, it has an
/// area, its tabs are sound and known apart, its groups have names of their
/// own, and its roots are sound and named apart from each other and from the
/// groups.
pub open spec fn sound_window(w: RawWindowView, home: Option<Seq<char>>) -> bool {
    &&& w.colour is Some ==> parsed(w.colour->0) is Ok
    &&& w.width != Some(0u32)
    &&& w.height != Some(0u32)
    &&& sound_tabs(written_tabs(w), home, |k: Seq<char>| false)
    &&& sound_names(group_names(w.groups), Seq::empty())
    &&& forall|i: int| 0 <= i < w.roots.len() ==> sound_root(#[trigger] w.roots[i])
    &&& forall|i: int|
        0 <= i < w.roots.len() ==> !group_names(w.groups).contains(
            #[trigger] root_names(w.roots, home)[i],
        )
    &&& root_names(w.roots, home).no_duplicates()
}

/// The titles of written windows.
pub open spec fn written_titles(windows: Seq<RawWindowView>) -> Seq<Seq<char>> {
    windows.map_values(|w: RawWindowView| trimmed(w.title))
}

/// Whether what is written of a configuration is sound.
pub open spec fn sound_config(raw: RawConfigView, home: Option<Seq<char>>) -> bool {
    &&& raw.tab_digit_keys matches Some(s) ==> is_blank(s) || trimmed(s) == "jump"@ || trimmed(s)
        == "cycle"@
    &&& raw.density matches Some(s) ==> is_blank(s) || trimmed(s) == "comfortable"@ || trimmed(s)
        == "compact"@
    &&& sound_names(written_titles(raw.windows), Seq::empty())
    &&& forall|i: int| 0 <= i < raw.windows.len() ==> sound_window(#[trigger] raw.windows[i], home)
}

proof fn lemma_tabs(
    tabs: Seq<TabView>,
    raws: Seq<RawTabView>,
    i: int,
    group: Option<Seq<char>>,
    w: RawWindowView,
    sc: Scope,
)
    requires
        0 <= i <= raws.len(),
    ensures
        tabs_from(tabs, raws, i, group, w, sc) is Ok <==> sound_tabs(
            written_in(raws, group).skip(i),
            sc.home,
            |k: Seq<char>| has_key(tabs, k),
        ),
        tabs_from(tabs, raws, i, group, w, sc) matches Ok(r) ==> forall|k: Seq<char>| #[trigger]
            has_key(r, k) <==> has_key(tabs, k) || identities(
                written_in(raws, group).skip(i),
                sc.home,
            ).contains(k),
    decreases raws.len() - i,
{
    let ws = written_in(raws, group).skip(i);
    let ids = identities(ws, sc.home);
    let taken = |k: Seq<char>| has_key(tabs, k);
    if i < raws.len() {
        let rest = written_in(raws, group).skip(i + 1);
        let rest_ids = identities(rest, sc.home);
        assert(ws[0].tab == raws[i]);
        assert(ws.len() == raws.len() - i);
        assert forall|k: int| 0 <= k < rest.len() implies #[trigger] rest[k] == ws[k + 1] by {}
        assert(ids[0] == identity(raws[i], sc.home));
        assert forall|k: int| 0 <= k < rest_ids.len() implies #[trigger] rest_ids[k] == ids[k + 1] by {}
        match crate::resolve::tab_of(raws[i], group, w, sc) {
            Err(_) => {
                assert(!sound_tab(ws[0].tab));
            },
            Ok(t) => {
                assert(t.key == identity(raws[i], sc.home));
                assert(sound_tab(ws[0].tab));
                if has_key(tabs, t.key) {
                    assert(taken(identity(ws[0].tab, sc.home)));
                } else {
                    let more = tabs.push(t);
                    let more_taken = |k: Seq<char>| has_key(more, k);
                    lemma_tabs(more, raws, i + 1, group, w, sc);
                    assert forall|k: Seq<char>| #[trigger] has_key(more, k) <==> has_key(tabs, k)
                        || k == t.key by {
                        lemma_push_key(tabs, t, k);
                    }
                    if sound_tabs(ws, sc.home, taken) {
                        assert forall|k: int| 0 <= k < rest.len() implies sound_tab(
                            (#[trigger] rest[k]).tab,
                        ) && !more_taken(identity(rest[k].tab, sc.home)) by {
                            assert(sound_tab(ws[k + 1].tab));
                            assert(!taken(identity(ws[k + 1].tab, sc.home)));
                            assert(ids[k + 1] != ids[0]);
                            assert(ids[k + 1] == identity(ws[k + 1].tab, sc.home));
                        }
                        assert forall|a: int, b: int|
                            0 <= a < rest_ids.len() && 0 <= b < rest_ids.len() && a
                                != b implies rest_ids[a] != rest_ids[b] by {
                            assert(ids[a + 1] != ids[b + 1]);
                        }
                        assert(sound_tabs(rest, sc.home, more_taken));
                    }
                    if sound_tabs(rest, sc.home, more_taken) {
                        assert forall|k: int| 0 <= k < ws.len() implies sound_tab(
                            (#[trigger] ws[k]).tab,
                        ) && !taken(identity(ws[k].tab, sc.home)) by {
                            if k > 0 {
                                assert(sound_tab(rest[k - 1].tab));
                                assert(!more_taken(identity(rest[k - 1].tab, sc.home)));
                            }
                        }
                        assert forall|a: int, b: int|
                            0 <= a < b < ids.len() implies ids[a] != ids[b] by {
                            assert(rest_ids[b - 1] == ids[b]);
                            if a > 0 {
                                assert(rest_ids[a - 1] == ids[a]);
                                assert(rest_ids[a - 1] != rest_ids[b - 1]);
                            } else {
                                assert(!more_taken(identity(rest[b - 1].tab, sc.home)));
                                assert(rest_ids[b - 1] == identity(rest[b - 1].tab, sc.home));
                            }
                        }
                        assert forall|a: int, b: int|
                            0 <= a < ids.len() && 0 <= b < ids.len() && a != b implies ids[a]
                            != ids[b] by {
                            if a > b {
                                assert(ids[b] != ids[a]);
                            }
                        }
                        assert(sound_tabs(ws, sc.home, taken));
                    }
                    if tabs_from(tabs, raws, i, group, w, sc) is Ok {
                        let r = tabs_from(tabs, raws, i, group, w, sc)->Ok_0;
                        assert forall|k: Seq<char>| #[trigger] has_key(r, k) <==> has_key(tabs, k)
                            || ids.contains(k) by {
                            if rest_ids.contains(k) {
                                let a = choose|a: int|
                                    0 <= a < rest_ids.len() && rest_ids[a] == k;
                                assert(ids[a + 1] == k);
                            }
                            if ids.contains(k) {
                                let a = choose|a: int| 0 <= a < ids.len() && ids[a] == k;
                                if a > 0 {
                                    assert(rest_ids[a - 1] == k);
                                }
                            }
                            if k == t.key {
                                assert(ids[0] == k);
                            }
                            assert(has_key(more, k) <==> has_key(tabs, k) || k == t.key);
                        }
                    }
                }
            },
        }
    } else {
        assert(ws.len() == 0);
        assert(ids.len() == 0);
    }
}

proof fn lemma_push_key(tabs: Seq<TabView>, t: TabView, k: Seq<char>)
    ensures
        has_key(tabs.push(t), k) <==> has_key(tabs, k) || k == t.key,
{
    let more = tabs.push(t);
    if has_key(tabs, k) {
        let a = choose|a: int| 0 <= a < tabs.len() && (#[trigger] tabs[a]).key == k;
        assert(more[a].key == k);
    }
    if k == t.key {
        assert(more[tabs.len() as int].key == k);
    }
    if has_key(more, k) {
        let a = choose|a: int| 0 <= a < more.len() && (#[trigger] more[a]).key == k;
        if a < tabs.len() {
            assert(tabs[a].key == k);
        }
    }
}

/// Sound tabs one behind the other are sound each by themselves, the second
/// with what the first are known by taken too.
proof fn lemma_sound_apart(
    a: Seq<Written>,
    b: Seq<Written>,
    home: Option<Seq<char>>,
    taken: spec_fn(Seq<char>) -> bool,
    more: spec_fn(Seq<char>) -> bool,
)
    requires
        forall|k: Seq<char>| #[trigger] more(k) <==> taken(k) || identities(a, home).contains(k),
    ensures
        sound_tabs(a + b, home, taken) <==> sound_tabs(a, home, taken) && sound_tabs(
            b,
            home,
            more,
        ),
{
    let ab = a + b;
    let ia = identities(a, home);
    let ib = identities(b, home);
    let iab = identities(ab, home);
    assert(iab =~= ia + ib);
    if sound_tabs(ab, home, taken) {
        assert forall|i: int| 0 <= i < a.len() implies sound_tab((#[trigger] a[i]).tab) && !taken(
            identity(a[i].tab, home),
        ) by {
            assert(ab[i] == a[i]);
        }
        assert forall|i: int, j: int| 0 <= i < ia.len() && 0 <= j < ia.len() && i != j implies ia[i]
            != ia[j] by {
            assert(iab[i] != iab[j]);
        }
        assert forall|i: int| 0 <= i < b.len() implies sound_tab((#[trigger] b[i]).tab) && !more(
            identity(b[i].tab, home),
        ) by {
            let p = a.len() + i;
            assert(ab[p] == b[i]);
            let k = identity(b[i].tab, home);
            if ia.contains(k) {
                let q = choose|q: int| 0 <= q < ia.len() && ia[q] == k;
                assert(iab[q] == iab[p]);
            }
        }
        assert forall|i: int, j: int| 0 <= i < ib.len() && 0 <= j < ib.len() && i != j implies ib[i]
            != ib[j] by {
            assert(iab[a.len() + i] != iab[a.len() + j]);
        }
    }
    if sound_tabs(a, home, taken) && sound_tabs(b, home, more) {
        assert forall|i: int| 0 <= i < ab.len() implies sound_tab((#[trigger] ab[i]).tab) && !taken(
            identity(ab[i].tab, home),
        ) by {
            if i < a.len() {
                assert(ab[i] == a[i]);
            } else {
                assert(ab[i] == b[i - a.len()]);
                assert(!more(identity(b[i - a.len()].tab, home)));
            }
        }
        assert forall|i: int, j: int|
            0 <= i < iab.len() && 0 <= j < iab.len() && i != j implies iab[i] != iab[j] by {
            if i < a.len() && j < a.len() {
                assert(ia[i] != ia[j]);
            } else if i >= a.len() && j >= a.len() {
                assert(ib[i - a.len()] != ib[j - a.len()]);
            } else {
                let (p, q) = if i < a.len() {
                    (i, j - a.len())
                } else {
                    (j, i - a.len())
                };
                assert(!more(identity(b[q].tab, home)));
                assert(ib[q] == identity(b[q].tab, home));
                assert(ia.contains(ia[p]));
            }
        }
    }
}

/// Names one behind the other.
proof fn lemma_names_apart(name: Seq<char>, rest: Seq<Seq<char>>, taken: Seq<Seq<char>>)
    ensures
        sound_names(seq![name] + rest, taken) <==> name.len() > 0 && !taken.contains(name)
            && sound_names(rest, taken.push(name)),
{
    let all = seq![name] + rest;
    let more = taken.push(name);
    assert forall|k: Seq<char>| #[trigger] more.contains(k) <==> taken.contains(k) || k == name by {
        if taken.contains(k) {
            let a = choose|a: int| 0 <= a < taken.len() && taken[a] == k;
            assert(more[a] == k);
        }
        if k == name {
            assert(more[taken.len() as int] == k);
        }
    }
    assert(all[0] == name);
    assert forall|i: int| 0 <= i < rest.len() implies #[trigger] rest[i] == all[i + 1] by {}
    if sound_names(all, taken) {
        assert forall|i: int| 0 <= i < rest.len() implies (#[trigger] rest[i]).len() > 0
            && !more.contains(rest[i]) by {
            assert(all[i + 1].len() > 0 && !taken.contains(all[i + 1]));
            assert(all[i + 1] != all[0]);
        }
        assert forall|i: int, j: int|
            0 <= i < rest.len() && 0 <= j < rest.len() && i != j implies rest[i] != rest[j] by {
            assert(all[i + 1] != all[j + 1]);
        }
    }
    if name.len() > 0 && !taken.contains(name) && sound_names(rest, more) {
        assert forall|i: int| 0 <= i < all.len() implies (#[trigger] all[i]).len() > 0
            && !taken.contains(all[i]) by {
            if i > 0 {
                assert(rest[i - 1].len() > 0 && !more.contains(rest[i - 1]));
            }
        }
        assert forall|i: int, j: int|
            0 <= i < all.len() && 0 <= j < all.len() && i != j implies all[i] != all[j] by {
            if i > 0 && j > 0 {
                assert(rest[i - 1] != rest[j - 1]);
            } else {
                let p = if i > 0 {
                    i
                } else {
                    j
                };
                assert(!more.contains(rest[p - 1]));
            }
        }
    }
}

proof fn lemma_groups(
    s: Sectioned,
    groups: Seq<RawGroupView>,
    i: int,
    w: RawWindowView,
    sc: Scope,
)
    requires
        0 <= i <= groups.len(),
    ensures
        groups_from(s, groups, i, w, sc) is Ok <==> sound_names(
            group_names(groups).skip(i),
            s.names,
        ) && sound_tabs(
            written_groups(groups, i),
            sc.home,
            |k: Seq<char>| has_key(s.tabs, k),
        ),
        groups_from(s, groups, i, w, sc) matches Ok(r) ==> r.names == s.names + group_names(
            groups,
        ).skip(i),
    decreases groups.len() - i,
{
    let names = group_names(groups).skip(i);
    let taken = |k: Seq<char>| has_key(s.tabs, k);
    if i < groups.len() {
        let name = trimmed(groups[i].name);
        let rest = group_names(groups).skip(i + 1);
        assert(names =~= seq![name] + rest);
        lemma_names_apart(name, rest, s.names);
        let here = written_in(groups[i].tabs, Some(name));
        let below = written_groups(groups, i + 1);
        assert(written_groups(groups, i) == here + below);
        lemma_tabs(s.tabs, groups[i].tabs, 0, Some(name), w, sc);
        assert(here.skip(0) =~= here);
        if name.len() > 0 && !s.names.contains(name) {
            match tabs_from(s.tabs, groups[i].tabs, 0, Some(name), w, sc) {
                Err(_) => {
                    lemma_sound_apart(
                        here,
                        below,
                        sc.home,
                        taken,
                        |k: Seq<char>| taken(k) || identities(here, sc.home).contains(k),
                    );
                },
                Ok(tabs) => {
                    let more = |k: Seq<char>| has_key(tabs, k);
                    assert forall|k: Seq<char>| #[trigger] more(k) <==> taken(k) || identities(
                        here,
                        sc.home,
                    ).contains(k) by {
                        assert(has_key(tabs, k) <==> has_key(s.tabs, k) || identities(
                            here,
                            sc.home,
                        ).contains(k));
                    }
                    lemma_sound_apart(here, below, sc.home, taken, more);
                    let next = Sectioned { tabs, names: s.names.push(name) };
                    lemma_groups(next, groups, i + 1, w, sc);
                    assert(s.names.push(name) + rest =~= s.names + names);
                },
            }
        }
    } else {
        assert(names.len() == 0);
        assert(s.names + names =~= s.names);
        assert(written_groups(groups, i).len() == 0);
        assert(identities(written_groups(groups, i), sc.home).len() == 0);
    }
}

proof fn lemma_sections(w: RawWindowView, sc: Scope)
    ensures
        sections_of(w, sc) is Ok <==> sound_tabs(
            written_tabs(w),
            sc.home,
            |k: Seq<char>| false,
        ) && sound_names(group_names(w.groups), Seq::empty()),
        sections_of(w, sc) matches Ok(s) ==> s.names == group_names(w.groups),
{
    let none = |k: Seq<char>| false;
    let loose = written_in(w.tabs, None);
    let grouped = written_groups(w.groups, 0);
    let empty = Seq::<TabView>::empty();
    lemma_tabs(empty, w.tabs, 0, None, w, sc);
    assert(loose.skip(0) =~= loose);
    assert(group_names(w.groups).skip(0) =~= group_names(w.groups));
    let start = |k: Seq<char>| has_key(empty, k);
    assert forall|k: Seq<char>| !#[trigger] has_key(empty, k) by {}
    assert(sound_tabs(loose, sc.home, start) <==> sound_tabs(loose, sc.home, none)) by {
        if sound_tabs(loose, sc.home, none) {
            assert forall|i: int| 0 <= i < loose.len() implies !start(
                identity((#[trigger] loose[i]).tab, sc.home),
            ) by {}
        }
        if sound_tabs(loose, sc.home, start) {
            assert forall|i: int| 0 <= i < loose.len() implies !none(
                identity((#[trigger] loose[i]).tab, sc.home),
            ) by {}
        }
    }
    match tabs_from(empty, w.tabs, 0, None, w, sc) {
        Err(_) => {
            lemma_sound_apart(
                loose,
                grouped,
                sc.home,
                none,
                |k: Seq<char>| none(k) || identities(loose, sc.home).contains(k),
            );
        },
        Ok(tabs) => {
            let more = |k: Seq<char>| has_key(tabs, k);
            assert forall|k: Seq<char>| #[trigger] more(k) <==> none(k) || identities(
                loose,
                sc.home,
            ).contains(k) by {
                assert(has_key(tabs, k) <==> has_key(empty, k) || identities(
                    loose,
                    sc.home,
                ).contains(k));
            }
            lemma_sound_apart(loose, grouped, sc.home, none, more);
            lemma_groups(Sectioned { tabs, names: Seq::empty() }, w.groups, 0, w, sc);
            assert(Seq::<Seq<char>>::empty() + group_names(w.groups) =~= group_names(w.groups));
        },
    }
}

proof fn lemma_roots(
    roots: Seq<RootView>,
    names: Seq<Seq<char>>,
    raws: Seq<RawRootView>,
    i: int,
    w: RawWindowView,
    sc: Scope,
)
    requires
        0 <= i <= raws.len(),
    ensures
        roots_from(roots, names, raws, i, w, sc) is Ok <==> {
            &&& forall|k: int| i <= k < raws.len() ==> sound_root(#[trigger] raws[k])
            &&& forall|k: int|
                i <= k < raws.len() ==> !names.contains(#[trigger] root_names(raws, sc.home)[k])
            &&& root_names(raws, sc.home).skip(i).no_duplicates()
        },
    decreases raws.len() - i,
{
    let all = root_names(raws, sc.home);
    if i < raws.len() {
        let name = root_name(raws[i], sc.home);
        assert(all[i] == name);
        match crate::resolve::root_of(raws[i], w, sc) {
            Err(_) => {
                assert(!sound_root(raws[i]));
            },
            Ok(r) => {
                assert(sound_root(raws[i]));
                assert(r.name == name);
                let more = names.push(name);
                assert forall|k: Seq<char>| #[trigger] more.contains(k) <==> names.contains(k) || k
                    == name by {
                    if names.contains(k) {
                        let a = choose|a: int| 0 <= a < names.len() && names[a] == k;
                        assert(more[a] == k);
                    }
                    if k == name {
                        assert(more[names.len() as int] == k);
                    }
                }
                lemma_roots(roots.push(r), more, raws, i + 1, w, sc);
                let here = all.skip(i);
                let rest = all.skip(i + 1);
                assert forall|k: int| 0 <= k < rest.len() implies #[trigger] rest[k] == here[k
                    + 1] by {}
                assert(here[0] == name);
                if here.no_duplicates() {
                    assert forall|a: int, b: int|
                        0 <= a < rest.len() && 0 <= b < rest.len() && a != b implies rest[a]
                        != rest[b] by {
                        assert(here[a + 1] != here[b + 1]);
                    }
                    assert forall|k: int| i + 1 <= k < raws.len() implies #[trigger] all[k]
                        != name by {
                        assert(here[k - i] == all[k]);
                        assert(here[k - i] != here[0]);
                    }
                }
                if rest.no_duplicates() && forall|k: int|
                    i + 1 <= k < raws.len() ==> #[trigger] all[k] != name {
                    assert forall|a: int, b: int|
                        0 <= a < here.len() && 0 <= b < here.len() && a != b implies here[a]
                        != here[b] by {
                        if a > 0 && b > 0 {
                            assert(rest[a - 1] != rest[b - 1]);
                        } else {
                            let p = if a > 0 {
                                a
                            } else {
                                b
                            };
                            assert(all[i + p] != name);
                            assert(here[p] == all[i + p]);
                        }
                    }
                }
                if !names.contains(name) && roots_from(
                    roots.push(r),
                    more,
                    raws,
                    i + 1,
                    w,
                    sc,
                ) is Ok {
                    assert forall|k: int| i + 1 <= k < raws.len() implies #[trigger] all[k]
                        != name by {
                        assert(!more.contains(all[k]));
                    }
                    assert forall|k: int| i <= k < raws.len() implies !names.contains(
                        #[trigger] all[k],
                    ) by {
                        if k > i {
                            assert(!more.contains(all[k]));
                        }
                    }
                }
            },
        }
    } else {
        assert(all.skip(i).len() == 0);
    }
}

/// A window resolves exactly where what is written of it is sound.
pub proof fn law_sound_windows_resolve(w: RawWindowView, sc: Scope)
    ensures
        window_of(w, sc) is Ok <==> sound_window(w, sc.home),
{
    lemma_sections(w, sc);
    if sections_of(w, sc) is Ok {
        let s = sections_of(w, sc)->Ok_0;
        lemma_roots(Seq::empty(), s.names, w.roots, 0, w, sc);
        assert(root_names(w.roots, sc.home).skip(0) =~= root_names(w.roots, sc.home));
    }
}

proof fn lemma_windows(windows: Seq<WindowView>, raws: Seq<RawWindowView>, i: int, sc: Scope)
    requires
        0 <= i <= raws.len(),
    ensures
        windows_from(windows, raws, i, sc) is Ok <==> {
            &&& forall|k: int|
                i <= k < raws.len() ==> {
                    &&& (#[trigger] written_titles(raws)[k]).len() > 0
                    &&& !has_title(windows, written_titles(raws)[k])
                }
            &&& written_titles(raws).skip(i).no_duplicates()
            &&& forall|k: int| i <= k < raws.len() ==> sound_window(#[trigger] raws[k], sc.home)
        },
    decreases raws.len() - i,
{
    let all = written_titles(raws);
    if i < raws.len() {
        let title = trimmed(raws[i].title);
        assert(all[i] == title);
        law_sound_windows_resolve(raws[i], sc);
        if window_of(raws[i], sc) is Ok {
            let x = window_of(raws[i], sc)->Ok_0;
            let more = windows.push(x);
            assert(x.title == title);
            assert forall|t: Seq<char>| #[trigger] has_title(more, t) <==> has_title(windows, t)
                || t == title by {
                if has_title(windows, t) {
                    let a = choose|a: int|
                        0 <= a < windows.len() && (#[trigger] windows[a]).title == t;
                    assert(more[a].title == t);
                }
                if t == title {
                    assert(more[windows.len() as int].title == t);
                }
                if has_title(more, t) {
                    let a = choose|a: int| 0 <= a < more.len() && (#[trigger] more[a]).title == t;
                    if a < windows.len() {
                        assert(windows[a].title == t);
                    }
                }
            }
            lemma_windows(more, raws, i + 1, sc);
            let here = all.skip(i);
            let rest = all.skip(i + 1);
            assert forall|k: int| 0 <= k < rest.len() implies #[trigger] rest[k] == here[k + 1] by {}
            assert(here[0] == title);
            if here.no_duplicates() {
                assert forall|a: int, b: int|
                    0 <= a < rest.len() && 0 <= b < rest.len() && a != b implies rest[a]
                    != rest[b] by {
                    assert(here[a + 1] != here[b + 1]);
                }
                assert forall|k: int| i + 1 <= k < raws.len() implies #[trigger] all[k] != title by {
                    assert(here[k - i] == all[k]);
                    assert(here[k - i] != here[0]);
                }
            }
            if rest.no_duplicates() && forall|k: int|
                i + 1 <= k < raws.len() ==> #[trigger] all[k] != title {
                assert forall|a: int, b: int|
                    0 <= a < here.len() && 0 <= b < here.len() && a != b implies here[a]
                    != here[b] by {
                    if a > 0 && b > 0 {
                        assert(rest[a - 1] != rest[b - 1]);
                    } else {
                        let p = if a > 0 {
                            a
                        } else {
                            b
                        };
                        assert(all[i + p] != title);
                        assert(here[p] == all[i + p]);
                    }
                }
            }
            if title.len() > 0 && !has_title(windows, title) && windows_from(
                more,
                raws,
                i + 1,
                sc,
            ) is Ok {
                assert forall|k: int| i + 1 <= k < raws.len() implies #[trigger] all[k] != title by {
                    assert(!has_title(more, all[k]));
                }
                assert forall|k: int| i <= k < raws.len() implies (#[trigger] all[k]).len() > 0
                    && !has_title(windows, all[k]) by {
                    if k > i {
                        assert(!has_title(more, all[k]));
                    }
                }
            }
        } else {
            assert(!sound_window(raws[i], sc.home));
        }
    } else {
        assert(all.skip(i).len() == 0);
    }
}

/// A configuration resolves exactly where what is written of it is sound: what
/// is sound is never refused, and what is not never gets through.
pub proof fn law_sound_configs_resolve(
    raw: RawConfigView,
    default_shell: Seq<char>,
    home: Option<Seq<char>>,
)
    ensures
        config_of(raw, default_shell, home) is Ok <==> sound_config(raw, home),
{
    let sc = scope_of(raw, default_shell, home);
    let all = written_titles(raw.windows);
    let empty = Seq::<WindowView>::empty();
    lemma_windows(empty, raw.windows, 0, sc);
    assert(all.skip(0) =~= all);
    assert forall|t: Seq<char>| !#[trigger] has_title(empty, t) by {}
    assert(windows_from(empty, raw.windows, 0, sc) is Ok <==> sound_names(all, Seq::empty()) && (
    forall|i: int| 0 <= i < raw.windows.len() ==> sound_window(#[trigger] raw.windows[i], home)))
        by {
        if windows_from(empty, raw.windows, 0, sc) is Ok {
            assert forall|i: int| 0 <= i < all.len() implies (#[trigger] all[i]).len() > 0
                && !Seq::<Seq<char>>::empty().contains(all[i]) by {}
        }
        if sound_names(all, Seq::empty()) {
            assert forall|k: int| 0 <= k < raw.windows.len() implies (#[trigger] all[k]).len() > 0
                && !has_title(empty, all[k]) by {}
        }
    }
}

/// Whether two written tabs are known by the same identity.
pub open spec fn known_twice(ws: Seq<Written>, home: Option<Seq<char>>, k: Seq<char>) -> bool {
    exists|a: int, b: int|
        0 <= a < b < ws.len() && #[trigger] identities(ws, home)[a] == k && #[trigger] identities(
            ws,
            home,
        )[b] == k
}

/// Whether a name comes twice.
pub open spec fn comes_twice(names: Seq<Seq<char>>, name: Seq<char>) -> bool {
    exists|a: int, b: int|
        0 <= a < b < names.len() && #[trigger] names[a] == name && #[trigger] names[b] == name
}

/// Whether a window has the defect that an error tells of.
pub open spec fn has_defect(w: RawWindowView, home: Option<Seq<char>>, e: ResolveErrorView) -> bool {
    match e {
        ResolveErrorView::DuplicateTabIdentity { window, identity } => window == w.title
            && known_twice(written_tabs(w), home, identity),
        ResolveErrorView::EmptyDir { window } => window == w.title && exists|i: int|
            0 <= i < written_tabs(w).len() && is_blank((#[trigger] written_tabs(w)[i]).tab.dir),
        ResolveErrorView::EmptyTabTitle { window } => window == w.title && exists|i: int|
            0 <= i < written_tabs(w).len() && (#[trigger] written_tabs(w)[i]).tab.title is Some
                && is_blank(written_tabs(w)[i].tab.title->0),
        ResolveErrorView::BadColour { window, source } => window == w.title && w.colour is Some
            && parsed(w.colour->0) == Err::<crate::colour::Colour, ColourErrorView>(source),
        ResolveErrorView::EmptyGroupName { window } => window == w.title && exists|i: int|
            0 <= i < w.groups.len() && is_blank((#[trigger] w.groups[i]).name),
        ResolveErrorView::DuplicateGroup { window, group } => window == w.title && comes_twice(
            group_names(w.groups),
            group,
        ),
        ResolveErrorView::InvalidWindowSize { window, width, height } => window == w.title && (width
            == 0 || height == 0) && (w.width is Some ==> w.width == Some(width)) && (
        w.height is Some ==> w.height == Some(height)) && (w.width == Some(0u32) || w.height
            == Some(0u32)),
        ResolveErrorView::EmptyRootDir { window } => window == w.title && exists|i: int|
            0 <= i < w.roots.len() && is_blank((#[trigger] w.roots[i]).dir),
        ResolveErrorView::EmptyRootName { window } => window == w.title && exists|i: int|
            0 <= i < w.roots.len() && (#[trigger] w.roots[i]).name is Some && is_blank(
                w.roots[i].name->0,
            ),
        ResolveErrorView::InvalidRootDepth { window, depth } => window == w.title && depth == 0
            && exists|i: int| 0 <= i < w.roots.len() && (#[trigger] w.roots[i]).depth == Some(0u32),
        ResolveErrorView::DuplicateSection { window, name } => window == w.title && comes_twice(
            group_names(w.groups) + root_names(w.roots, home),
            name,
        ),
        _ => false,
    }
}

/// Whether the tabs of a section stand, from `at` on, among those of a window.
spec fn stand_at(all: Seq<Written>, ws: Seq<Written>, at: int) -> bool {
    0 <= at && at + ws.len() <= all.len() && forall|k: int|
        0 <= k < ws.len() ==> #[trigger] ws[k] == all[at + k]
}

proof fn lemma_tabs_defect(
    tabs: Seq<TabView>,
    raws: Seq<RawTabView>,
    i: int,
    group: Option<Seq<char>>,
    w: RawWindowView,
    sc: Scope,
    at: int,
)
    requires
        0 <= i <= raws.len(),
        stand_at(written_tabs(w), written_in(raws, group), at),
        forall|k: Seq<char>| #[trigger]
            has_key(tabs, k) ==> exists|a: int|
                0 <= a < at + i && #[trigger] identities(written_tabs(w), sc.home)[a] == k,
    ensures
        tabs_from(tabs, raws, i, group, w, sc) matches Err(e) ==> has_defect(w, sc.home, e),
        tabs_from(tabs, raws, i, group, w, sc) matches Ok(r) ==> forall|k: Seq<char>| #[trigger]
            has_key(r, k) ==> exists|a: int|
                0 <= a < at + raws.len() && #[trigger] identities(written_tabs(w), sc.home)[a] == k,
    decreases raws.len() - i,
{
    let all = written_tabs(w);
    let ids = identities(all, sc.home);
    if i < raws.len() {
        let ws = written_in(raws, group);
        assert(ws[i] == all[at + i]);
        assert(all[at + i].tab == raws[i]);
        assert(ids[at + i] == identity(raws[i], sc.home));
        match crate::resolve::tab_of(raws[i], group, w, sc) {
            Err(_) => {},
            Ok(t) => {
                assert(t.key == ids[at + i]);
                if has_key(tabs, t.key) {
                    let a = choose|a: int|
                        0 <= a < at + i && #[trigger] identities(written_tabs(w), sc.home)[a]
                            == t.key;
                    assert(identities(all, sc.home)[a] == t.key && identities(all, sc.home)[at + i]
                        == t.key);
                    assert(known_twice(all, sc.home, t.key));
                } else {
                    let more = tabs.push(t);
                    assert forall|k: Seq<char>| #[trigger] has_key(more, k) implies exists|a: int|
                        0 <= a < at + i + 1 && #[trigger] identities(written_tabs(w), sc.home)[a]
                            == k by {
                        lemma_push_key(tabs, t, k);
                        if k == t.key {
                            assert(identities(written_tabs(w), sc.home)[at + i] == k);
                        } else {
                            assert(has_key(tabs, k));
                        }
                    }
                    lemma_tabs_defect(more, raws, i + 1, group, w, sc, at);
                }
            },
        }
    }
}

proof fn lemma_groups_defect(
    s: Sectioned,
    i: int,
    w: RawWindowView,
    sc: Scope,
    at: int,
)
    requires
        0 <= i <= w.groups.len(),
        stand_at(written_tabs(w), written_groups(w.groups, i), at),
        s.names == group_names(w.groups).take(i),
        forall|k: Seq<char>| #[trigger]
            has_key(s.tabs, k) ==> exists|a: int|
                0 <= a < at && #[trigger] identities(written_tabs(w), sc.home)[a] == k,
    ensures
        groups_from(s, w.groups, i, w, sc) matches Err(e) ==> has_defect(w, sc.home, e),
    decreases w.groups.len() - i,
{
    let all = written_tabs(w);
    let names = group_names(w.groups);
    if i < w.groups.len() {
        let name = trimmed(w.groups[i].name);
        assert(names[i] == name);
        let here = written_in(w.groups[i].tabs, Some(name));
        let below = written_groups(w.groups, i + 1);
        assert(written_groups(w.groups, i) == here + below);
        assert forall|k: int| 0 <= k < here.len() implies #[trigger] here[k] == all[at + k] by {
            assert((here + below)[k] == here[k]);
        }
        assert forall|k: int| 0 <= k < below.len() implies #[trigger] below[k] == all[at
            + here.len() + k] by {
            assert((here + below)[here.len() + k] == below[k]);
        }
        if name.len() == 0 {
            assert(is_blank(w.groups[i].name));
        } else if s.names.contains(name) {
            let a = choose|a: int| 0 <= a < s.names.len() && s.names[a] == name;
            assert(names[a] == name && names[i] == name);
            assert(comes_twice(names, name));
        } else {
            lemma_tabs_defect(s.tabs, w.groups[i].tabs, 0, Some(name), w, sc, at);
            match tabs_from(s.tabs, w.groups[i].tabs, 0, Some(name), w, sc) {
                Err(_) => {},
                Ok(tabs) => {
                    assert(s.names.push(name) =~= names.take(i + 1));
                    lemma_groups_defect(
                        Sectioned { tabs, names: s.names.push(name) },
                        i + 1,
                        w,
                        sc,
                        at + here.len(),
                    );
                },
            }
        }
    }
}

proof fn lemma_roots_defect(
    roots: Seq<RootView>,
    names: Seq<Seq<char>>,
    i: int,
    w: RawWindowView,
    sc: Scope,
)
    requires
        0 <= i <= w.roots.len(),
        names == group_names(w.groups) + root_names(w.roots, sc.home).take(i),
    ensures
        roots_from(roots, names, w.roots, i, w, sc) matches Err(e) ==> has_defect(w, sc.home, e),
    decreases w.roots.len() - i,
{
    let own = root_names(w.roots, sc.home);
    let all = group_names(w.groups) + own;
    if i < w.roots.len() {
        match crate::resolve::root_of(w.roots[i], w, sc) {
            Err(_) => {},
            Ok(r) => {
                assert(r.name == own[i]);
                if names.contains(r.name) {
                    let a = choose|a: int| 0 <= a < names.len() && names[a] == r.name;
                    assert(all[a] == r.name);
                    assert(all[group_names(w.groups).len() + i] == r.name);
                    assert(comes_twice(all, r.name));
                } else {
                    assert(names.push(r.name) =~= group_names(w.groups) + own.take(i + 1));
                    lemma_roots_defect(roots.push(r), names.push(r.name), i + 1, w, sc);
                }
            },
        }
    }
}

/// A window that does not resolve has the defect that its error tells of, and
/// is the one that the error names.
pub proof fn law_errors_tell_of_a_defect(w: RawWindowView, sc: Scope)
    requires
        window_of(w, sc) is Err,
    ensures
        has_defect(w, sc.home, window_of(w, sc)->Err_0),
{
    let loose = written_in(w.tabs, None);
    let grouped = written_groups(w.groups, 0);
    let all = written_tabs(w);
    let empty = Seq::<TabView>::empty();
    assert forall|k: int| 0 <= k < loose.len() implies #[trigger] loose[k] == all[0 + k] by {}
    assert forall|k: int| 0 <= k < grouped.len() implies #[trigger] grouped[k] == all[loose.len()
        + k] by {}
    assert forall|k: Seq<char>| !#[trigger] has_key(empty, k) by {}
    lemma_tabs_defect(empty, w.tabs, 0, None, w, sc, 0);
    match tabs_from(empty, w.tabs, 0, None, w, sc) {
        Err(_) => {},
        Ok(tabs) => {
            assert(group_names(w.groups).take(0) =~= Seq::empty());
            lemma_groups_defect(
                Sectioned { tabs, names: Seq::empty() },
                0,
                w,
                sc,
                loose.len() as int,
            );
        },
    }
    lemma_sections(w, sc);
    if sections_of(w, sc) is Ok {
        let s = sections_of(w, sc)->Ok_0;
        assert(root_names(w.roots, sc.home).take(0) =~= Seq::empty());
        assert(group_names(w.groups) + Seq::<Seq<char>>::empty() =~= s.names);
        lemma_roots_defect(Seq::empty(), s.names, 0, w, sc);
    }
}

proof fn lemma_windows_defect(
    windows: Seq<WindowView>,
    raws: Seq<RawWindowView>,
    i: int,
    sc: Scope,
)
    requires
        0 <= i <= raws.len(),
        windows.len() == i,
        forall|k: int| 0 <= k < i ==> (#[trigger] windows[k]).title == written_titles(raws)[k],
    ensures
        windows_from(windows, raws, i, sc) matches Err(e) ==> match e {
            ResolveErrorView::EmptyWindowTitle { index } => 0 <= index < raws.len() && is_blank(
                raws[index].title,
            ),
            ResolveErrorView::DuplicateWindow(t) => comes_twice(written_titles(raws), t),
            _ => exists|k: int| 0 <= k < raws.len() && has_defect(#[trigger] raws[k], sc.home, e),
        },
    decreases raws.len() - i,
{
    let all = written_titles(raws);
    if i < raws.len() {
        let title = trimmed(raws[i].title);
        assert(all[i] == title);
        if title.len() > 0 {
            if has_title(windows, title) {
                let k = choose|k: int| 0 <= k < windows.len() && (#[trigger] windows[k]).title
                    == title;
                assert(all[k] == title && all[i] == title);
                assert(comes_twice(all, title));
            } else if window_of(raws[i], sc) is Err {
                law_errors_tell_of_a_defect(raws[i], sc);
            } else {
                let x = window_of(raws[i], sc)->Ok_0;
                assert(x.title == title);
                lemma_windows_defect(windows.push(x), raws, i + 1, sc);
            }
        }
    }
}

/// A configuration that does not resolve has the defect that its error tells
/// of: in the settings of the whole file, in the titles of its windows, or in
/// one of the windows, which the error then names.
pub proof fn law_errors_tell_what_is_wrong(
    raw: RawConfigView,
    default_shell: Seq<char>,
    home: Option<Seq<char>>,
)
    requires
        config_of(raw, default_shell, home) is Err,
    ensures
        match config_of(raw, default_shell, home)->Err_0 {
            ResolveErrorView::BadTabDigitKeys(s) => {
                &&& raw.tab_digit_keys is Some && trimmed(raw.tab_digit_keys->0) == s
                &&& s != "jump"@ && s != "cycle"@ && s.len() > 0
            },
            ResolveErrorView::BadDensity(s) => {
                &&& raw.density is Some && trimmed(raw.density->0) == s
                &&& s != "comfortable"@ && s != "compact"@ && s.len() > 0
            },
            ResolveErrorView::EmptyWindowTitle { index } => 0 <= index < raw.windows.len()
                && is_blank(raw.windows[index].title),
            ResolveErrorView::DuplicateWindow(t) => comes_twice(written_titles(raw.windows), t),
            e => exists|k: int|
                0 <= k < raw.windows.len() && has_defect(#[trigger] raw.windows[k], home, e),
        },
{
    lemma_windows_defect(Seq::empty(), raw.windows, 0, scope_of(raw, default_shell, home));
}

} // verus!
