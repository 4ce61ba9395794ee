//! What holds of every search for projects.

use crate::model::{ConfigView, RootView, TabView, WindowView};
use crate::paths::basename_of;
use crate::resolve::has_key;
use crate::resolve_laws::distinct_keys;
use crate::scanner::{
    all_projects, effective, effective_tabs, first_of_each, found, law_listed_tabs_shadow_projects,
    project_tabs, visit_of, Visit,
};
use vstd::prelude::*;

verus! {

/// An entry of a directory, with what is below it.
pub ghost struct Entry {
    pub name: Seq<char>,
    pub is_dir: bool,
    pub is_symlink: bool,
    pub has_git: bool,
    pub below: Seq<Entry>,
}

/// Whether an entry is a directory that a search may look at: neither hidden
/// nor reached by a symbolic link.
pub open spec fn plain(e: Entry) -> bool {
    e.is_dir && !e.is_symlink && !(e.name.len() > 0 && e.name[0] == '.')
}

/// Whether a path leads to an entry, each step the number of an entry among
/// those of the directory before it.
pub open spec fn leads(entries: Seq<Entry>, path: Seq<int>) -> bool
    decreases path.len(),
{
    path.len() > 0 && 0 <= path[0] < entries.len() && (path.len() == 1 || leads(
        entries[path[0]].below,
        path.skip(1),
    ))
}

/// The entry that a path leads to after its step `k`.
pub open spec fn passed(entries: Seq<Entry>, path: Seq<int>, k: int) -> Entry
    decreases k,
{
    if k <= 0 {
        entries[path[0]]
    } else {
        passed(entries[path[0]].below, path.skip(1), k - 1)
    }
}

/// Whether a search of `entries` with `levels` left below them comes to the
/// entry at `path`, and what it does there.
pub open spec fn search_at(entries: Seq<Entry>, levels: u32, path: Seq<int>) -> Option<Visit>
    decreases path.len(),
{
    if path.len() == 0 || !(0 <= path[0] < entries.len()) {
        None
    } else {
        let e = entries[path[0]];
        let v = visit_of(e.name, e.is_dir, e.is_symlink, e.has_git, levels);
        if path.len() == 1 {
            Some(v)
        } else if v == Visit::Descend {
            search_at(e.below, (levels - 1) as u32, path.skip(1))
        } else {
            None
        }
    }
}

/// The search of a root comes to exactly the entries within its depth whose
/// directories above are all plain and hold no repository. Of those the plain
/// ones that are repositories are the projects, at whatever level they stand.
pub proof fn law_search_finds_the_topmost_repositories(
    entries: Seq<Entry>,
    levels: u32,
    path: Seq<int>,
)
    requires
        leads(entries, path),
    ensures
        search_at(entries, levels, path) is Some <==> {
            &&& path.len() <= levels + 1
            &&& forall|k: int|
                0 <= k < path.len() - 1 ==> plain(#[trigger] passed(entries, path, k))
                    && !passed(entries, path, k).has_git
        },
        search_at(entries, levels, path) is Some ==> {
            let e = passed(entries, path, path.len() - 1);
            search_at(entries, levels, path) == Some(
                if !plain(e) {
                    Visit::Skip
                } else if e.has_git {
                    Visit::Project
                } else if path.len() <= levels {
                    Visit::Descend
                } else {
                    Visit::Skip
                },
            )
        },
    decreases path.len(),
{
    let e = entries[path[0]];
    assert(passed(entries, path, 0) == e);
    if path.len() > 1 {
        let rest = path.skip(1);
        assert forall|k: int| 1 <= k < path.len() implies #[trigger] passed(entries, path, k)
            == passed(e.below, rest, k - 1) by {}
        assert(passed(entries, path, path.len() - 1) == passed(e.below, rest, rest.len() - 1));
        if plain(e) && !e.has_git && levels > 0 {
            law_search_finds_the_topmost_repositories(e.below, (levels - 1) as u32, rest);
            if forall|k: int|
                0 <= k < path.len() - 1 ==> plain(#[trigger] passed(entries, path, k)) && !passed(
                    entries,
                    path,
                    k,
                ).has_git {
                assert forall|k: int| 0 <= k < rest.len() - 1 implies plain(
                    #[trigger] passed(e.below, rest, k),
                ) && !passed(e.below, rest, k).has_git by {
                    assert(passed(entries, path, k + 1) == passed(e.below, rest, k));
                }
            }
            if search_at(e.below, (levels - 1) as u32, rest) is Some {
                assert forall|k: int| 0 <= k < path.len() - 1 implies plain(
                    #[trigger] passed(entries, path, k),
                ) && !passed(entries, path, k).has_git by {
                    if k > 0 {
                        assert(passed(entries, path, k) == passed(e.below, rest, k - 1));
                    }
                }
            }
        }
    }
}

/// A repository is a project however many levels are left, and nothing below it
/// is looked at.
pub proof fn law_repositories_are_projects_at_any_level(
    name: Seq<char>,
    is_dir: bool,
    is_symlink: bool,
    levels: u32,
    others: u32,
)
    ensures
        visit_of(name, is_dir, is_symlink, true, levels) == visit_of(
            name,
            is_dir,
            is_symlink,
            true,
            others,
        ),
        visit_of(name, is_dir, is_symlink, true, levels) != Visit::Descend,
        visit_of(name, is_dir, is_symlink, false, levels) != Visit::Project,
        visit_of(name, is_dir, is_symlink, true, levels) == Visit::Project <==> visit_of(
            name,
            is_dir,
            is_symlink,
            false,
            1,
        ) == Visit::Descend,
        visit_of(name, is_dir, is_symlink, false, 0) == Visit::Skip,
{
}

/// Whether a tab is the one of a project at `path` under a root: known by its
/// path, run in it and called by its name, in the root's section and with what
/// the root says of its tabs.
pub open spec fn is_project_of(t: TabView, root: RootView, path: Seq<char>) -> bool {
    &&& t.key == path
    &&& t.dir == path
    &&& t.title == basename_of(path)
    &&& t.group == Some(root.name)
    &&& t.shell == root.shell
    &&& t.startup == root.startup
    &&& t.probe == root.probe
    &&& t.kill == root.kill
    &&& t.split == root.split
    &&& t.id is None
    &&& !t.load_on_open
}

/// Whether a tab is the first of a list with its identity.
pub open spec fn is_first(all: Seq<TabView>, i: int) -> bool {
    0 <= i < all.len() && forall|k: int|
        0 <= k < i ==> (#[trigger] all[k]).key != all[i].key
}

proof fn lemma_firsts(all: Seq<TabView>)
    ensures
        forall|j: int|
            0 <= j < first_of_each(Seq::empty(), all).len() ==> exists|i: int|
                #[trigger] is_first(all, i) && all[i] == (#[trigger] first_of_each(
                    Seq::empty(),
                    all,
                )[j]),
        forall|i: int|
            #[trigger] is_first(all, i) ==> first_of_each(Seq::empty(), all).contains(all[i]),
    decreases all.len(),
{
    if all.len() > 0 {
        let rest = all.drop_last();
        let t = all.last();
        let n = all.len() - 1;
        let empty = Seq::<TabView>::empty();
        let before = first_of_each(empty, rest);
        let after = first_of_each(empty, all);
        lemma_firsts(rest);
        assert forall|i: int| 0 <= i < n implies #[trigger] is_first(all, i) == is_first(rest, i) by {
            assert(all[i] == rest[i]);
            if is_first(all, i) {
                assert forall|k: int| 0 <= k < i implies (#[trigger] rest[k]).key
                    != rest[i].key by {
                    assert(all[k] == rest[k]);
                }
            }
            if is_first(rest, i) {
                assert forall|k: int| 0 <= k < i implies (#[trigger] all[k]).key != all[i].key by {
                    assert(all[k] == rest[k]);
                }
            }
        }
        // The last is new exactly where nothing before it has its identity.
        if has_key(before, t.key) {
            let k = choose|k: int| 0 <= k < before.len() && (#[trigger] before[k]).key == t.key;
            let i = choose|i: int| #[trigger] is_first(rest, i) && rest[i] == before[k];
            assert(all[i].key == t.key);
            assert(!is_first(all, n));
        } else {
            assert(is_first(all, n)) by {
                assert forall|k: int| 0 <= k < n implies (#[trigger] all[k]).key != all[n].key by {
                    if all[k].key == t.key {
                        lemma_has_first(rest, k);
                        let i = choose|i: int| #[trigger]
                            is_first(rest, i) && rest[i].key == rest[k].key;
                        assert(before.contains(rest[i]));
                        let m = choose|m: int| 0 <= m < before.len() && before[m] == rest[i];
                        assert(before[m].key == t.key);
                    }
                }
            }
        }
        assert forall|j: int| 0 <= j < after.len() implies exists|i: int| #[trigger]
            is_first(all, i) && all[i] == (#[trigger] after[j]) by {
            if j < before.len() {
                assert(after[j] == before[j]);
                let i = choose|i: int| #[trigger] is_first(rest, i) && rest[i] == before[j];
                assert(is_first(all, i) && all[i] == after[j]);
            } else {
                assert(is_first(all, n) && all[n] == after[j]);
            }
        }
        assert forall|i: int| #[trigger] is_first(all, i) implies after.contains(all[i]) by {
            if i < n {
                assert(is_first(rest, i));
                let m = choose|m: int| 0 <= m < before.len() && before[m] == rest[i];
                assert(after[m] == all[i]);
            } else {
                assert(after[before.len() as int] == t);
            }
        }
    }
}

proof fn lemma_has_first(all: Seq<TabView>, k: int)
    requires
        0 <= k < all.len(),
    ensures
        exists|i: int| #[trigger] is_first(all, i) && i <= k && all[i].key == all[k].key,
    decreases k,
{
    if !is_first(all, k) {
        let m = choose|m: int| 0 <= m < k && (#[trigger] all[m]).key == all[k].key;
        lemma_has_first(all, m);
    }
}

proof fn lemma_prefix(roots: Seq<RootView>, projects: Seq<Vec<String>>, r: int, k: int, n: int)
    requires
        0 <= r < n <= roots.len(),
        0 <= k < found(projects, r).len(),
    ensures
        all_projects(roots, projects, r).len() + k < all_projects(roots, projects, n).len(),
        is_project_of(
            all_projects(roots, projects, n)[all_projects(roots, projects, r).len() + k],
            roots[r],
            found(projects, r)[k],
        ),
    decreases n,
{
    let before = all_projects(roots, projects, n - 1);
    if r < n - 1 {
        lemma_prefix(roots, projects, r, k, n - 1);
    } else {
        let i = before.len() + k;
        assert(all_projects(roots, projects, n)[i] == project_tabs(
            roots[n - 1],
            found(projects, n - 1),
        )[k]);
    }
}

/// Where a tab of the projects comes from: root `r` and the path `k` there.
pub open spec fn comes_from(
    roots: Seq<RootView>,
    projects: Seq<Vec<String>>,
    t: TabView,
    r: int,
    k: int,
) -> bool {
    &&& 0 <= r < roots.len()
    &&& 0 <= k < found(projects, r).len()
    &&& is_project_of(t, roots[r], found(projects, r)[k])
}

proof fn lemma_origin(roots: Seq<RootView>, projects: Seq<Vec<String>>, n: int, i: int) -> (at: (
    int,
    int,
))
    requires
        0 <= n <= roots.len(),
        0 <= i < all_projects(roots, projects, n).len(),
    ensures
        at.0 < n,
        comes_from(roots, projects, all_projects(roots, projects, n)[i], at.0, at.1),
        i == all_projects(roots, projects, at.0).len() + at.1,
    decreases n,
{
    let before = all_projects(roots, projects, n - 1);
    if i < before.len() {
        lemma_origin(roots, projects, n - 1, i)
    } else {
        let at = (n - 1, i - before.len());
        assert(all_projects(roots, projects, n)[i] == project_tabs(
            roots[n - 1],
            found(projects, n - 1),
        )[at.1]);
        at
    }
}

/// Every tab of a searched window is one that it lists, or that of a project
/// found under one of its roots.
pub proof fn law_every_tab_is_listed_or_found(w: WindowView, projects: Seq<Vec<String>>, j: int)
    requires
        0 <= j < effective_tabs(w, projects).len(),
    ensures
        w.tabs.contains(effective_tabs(w, projects)[j]) || exists|r: int, k: int| #[trigger]
            comes_from(w.roots, projects, effective_tabs(w, projects)[j], r, k),
{
    let more = all_projects(w.roots, projects, w.roots.len() as int);
    let all = w.tabs + more;
    lemma_firsts(all);
    let t = effective_tabs(w, projects)[j];
    let i = choose|i: int| #[trigger] is_first(all, i) && all[i] == t;
    if i < w.tabs.len() {
        assert(w.tabs[i] == t);
    } else {
        let at = lemma_origin(w.roots, projects, w.roots.len() as int, i - w.tabs.len());
        assert(more[i - w.tabs.len()] == t);
        assert(comes_from(w.roots, projects, t, at.0, at.1));
    }
}

/// A project that no listed tab and no earlier root has taken is a tab under
/// the root that found it, with what that root says.
pub proof fn law_the_first_root_has_the_project(
    w: WindowView,
    projects: Seq<Vec<String>>,
    r: int,
    k: int,
)
    requires
        0 <= r < w.roots.len(),
        0 <= k < found(projects, r).len(),
        !has_key(w.tabs, found(projects, r)[k]),
        forall|a: int, b: int|
            0 <= a < r && 0 <= b < found(projects, a).len() ==> #[trigger] found(projects, a)[b]
                != found(projects, r)[k],
    ensures
        exists|j: int|
            0 <= j < effective_tabs(w, projects).len() && is_project_of(
                #[trigger] effective_tabs(w, projects)[j],
                w.roots[r],
                found(projects, r)[k],
            ),
{
    let n = w.roots.len() as int;
    let path = found(projects, r)[k];
    let more = all_projects(w.roots, projects, n);
    let all = w.tabs + more;
    lemma_firsts(all);
    lemma_prefix(w.roots, projects, r, k, n);
    let at = w.tabs.len() + all_projects(w.roots, projects, r).len() + k;
    assert(all[at] == more[at - w.tabs.len()]);
    assert(all[at].key == path);
    lemma_has_first(all, at);
    let i = choose|i: int| #[trigger] is_first(all, i) && i <= at && all[i].key == all[at].key;
    if i < w.tabs.len() {
        assert(w.tabs[i].key == path);
        assert(false);
    }
    let from = lemma_origin(w.roots, projects, n, i - w.tabs.len());
    assert(more[i - w.tabs.len()] == all[i]);
    assert(found(projects, from.0)[from.1] == path);
    assert(from.0 >= r);
    if from.0 > r {
        lemma_grows(w.roots, projects, r + 1, from.0);
        assert(all_projects(w.roots, projects, r + 1).len() == all_projects(
            w.roots,
            projects,
            r,
        ).len() + found(projects, r).len());
        assert(false);
    }
    let e = effective_tabs(w, projects);
    assert(e.contains(all[i]));
    let j = choose|j: int| 0 <= j < e.len() && e[j] == all[i];
    assert(is_project_of(e[j], w.roots[r], path));
}

proof fn lemma_grows(roots: Seq<RootView>, projects: Seq<Vec<String>>, a: int, b: int)
    requires
        0 <= a <= b,
    ensures
        all_projects(roots, projects, a).len() <= all_projects(roots, projects, b).len(),
    decreases b - a,
{
    if a < b {
        lemma_grows(roots, projects, a, b - 1);
    }
}

/// Searching the roots of a configuration changes nothing of it but the tabs of
/// its windows, and of those without roots not even these.
pub proof fn law_searching_adds_tabs_only(
    c: ConfigView,
    projects: Seq<Vec<Vec<String>>>,
    i: int,
)
    requires
        0 <= i < c.windows.len(),
    ensures
        effective(c, projects).windows.len() == c.windows.len(),
        ({
            let w = effective(c, projects).windows[i];
            &&& w.title == c.windows[i].title
            &&& w.colour == c.windows[i].colour
            &&& w.width == c.windows[i].width
            &&& w.height == c.windows[i].height
            &&& w.open_on_start == c.windows[i].open_on_start
            &&& w.roots == c.windows[i].roots
            &&& forall|k: int|
                0 <= k < w.tabs.len() && c.windows[i].roots.len() == 0
                    ==> c.windows[i].tabs.contains(#[trigger] w.tabs[k])
        }),
        effective(c, projects).format_on_save == c.format_on_save,
        effective(c, projects).tab_digit_keys == c.tab_digit_keys,
        effective(c, projects).probe_interval == c.probe_interval,
        effective(c, projects).density == c.density,
        effective(c, projects).sidebar_drag == c.sidebar_drag,
        effective(c, projects).auto_update == c.auto_update,
        effective(c, projects).notify_debug == c.notify_debug,
{
    let w = effective(c, projects).windows[i];
    let p = if i < projects.len() {
        projects[i]@
    } else {
        Seq::empty()
    };
    assert forall|k: int|
        0 <= k < w.tabs.len() && c.windows[i].roots.len() == 0 implies c.windows[i].tabs.contains(
        #[trigger] w.tabs[k],
    ) by {
        law_every_tab_is_listed_or_found(c.windows[i], p, k);
    }
}

/// The paths found for a window are those of its own place in the list, each
/// root's at the root's place.
pub proof fn law_projects_go_to_their_window(
    c: ConfigView,
    projects: Seq<Vec<Vec<String>>>,
    i: int,
    r: int,
    k: int,
)
    requires
        0 <= i < c.windows.len(),
        0 <= i < projects.len(),
        0 <= r < c.windows[i].roots.len(),
        0 <= r < projects[i]@.len(),
        0 <= k < projects[i]@[r]@.len(),
    ensures
        has_key(effective(c, projects).windows[i].tabs, projects[i]@[r]@[k]@),
{
    let w = c.windows[i];
    let p = projects[i]@;
    let n = w.roots.len() as int;
    let path = p[r]@[k]@;
    assert(found(p, r)[k] == path);
    let more = all_projects(w.roots, p, n);
    let all = w.tabs + more;
    lemma_firsts(all);
    lemma_prefix(w.roots, p, r, k, n);
    let at = w.tabs.len() + all_projects(w.roots, p, r).len() + k;
    assert(all[at] == more[at - w.tabs.len()]);
    lemma_has_first(all, at);
    let f = choose|f: int| #[trigger] is_first(all, f) && f <= at && all[f].key == all[at].key;
    let e = effective_tabs(w, p);
    assert(e.contains(all[f]));
    let j = choose|j: int| 0 <= j < e.len() && e[j] == all[f];
    assert(e[j].key == path);
}

proof fn lemma_firsts_in_order(all: Seq<TabView>, a: int, b: int) -> (at: (int, int))
    requires
        0 <= a < b < first_of_each(Seq::empty(), all).len(),
    ensures
        is_first(all, at.0),
        is_first(all, at.1),
        at.0 < at.1,
        all[at.0] == first_of_each(Seq::empty(), all)[a],
        all[at.1] == first_of_each(Seq::empty(), all)[b],
    decreases all.len(),
{
    lemma_firsts(all);
    let rest = all.drop_last();
    let before = first_of_each(Seq::<TabView>::empty(), rest);
    let after = first_of_each(Seq::<TabView>::empty(), all);
    let at = if b < before.len() {
        lemma_firsts_in_order(rest, a, b)
    } else {
        lemma_firsts(rest);
        assert(after[a] == before[a]);
        let i = choose|i: int| #[trigger] is_first(rest, i) && rest[i] == before[a];
        (i, all.len() - 1)
    };
    assert(all[at.0] == after[a] && all[at.1] == after[b]);
    assert forall|k: int| 0 <= k < all.len() - 1 implies #[trigger] all[k] == rest[k] by {}
    if b >= before.len() {
        let i = choose|i: int| #[trigger] is_first(all, i) && all[i] == after[b];
        assert(all[all.len() - 1].key == all[i].key);
        if i != all.len() - 1 {
            assert(is_first(rest, i));
            let m = choose|m: int| 0 <= m < before.len() && before[m] == rest[i];
            assert(before.contains(rest[i])) by {
                lemma_firsts(rest);
            }
            assert(has_key(before, all.last().key));
        }
    }
    at
}

/// The projects of a searched window stand behind the tabs that it lists, in
/// the order of its roots, and under each root in the order they were found.
pub proof fn law_projects_keep_their_order(
    w: WindowView,
    projects: Seq<Vec<String>>,
    a: int,
    b: int,
)
    requires
        distinct_keys(w.tabs),
        w.tabs.len() <= a < b < effective_tabs(w, projects).len(),
    ensures
        exists|q: int, j: int, r: int, k: int|
            {
                &&& #[trigger] comes_from(w.roots, projects, effective_tabs(w, projects)[a], q, j)
                &&& #[trigger] comes_from(w.roots, projects, effective_tabs(w, projects)[b], r, k)
                &&& q < r || (q == r && j < k)
            },
{
    let n = w.roots.len() as int;
    let more = all_projects(w.roots, projects, n);
    let all = w.tabs + more;
    let e = effective_tabs(w, projects);
    let at = lemma_firsts_in_order(all, a, b);
    law_listed_tabs_shadow_projects(w, projects);
    if at.0 < w.tabs.len() {
        assert(e[at.0] == e.take(w.tabs.len() as int)[at.0]);
        assert(e[at.0].key == e[a].key);
        assert(false);
    }
    let x = lemma_origin(w.roots, projects, n, at.0 - w.tabs.len());
    let y = lemma_origin(w.roots, projects, n, at.1 - w.tabs.len());
    assert(comes_from(w.roots, projects, e[a], x.0, x.1));
    assert(comes_from(w.roots, projects, e[b], y.0, y.1));
    if x.0 > y.0 {
        lemma_grows(w.roots, projects, y.0 + 1, x.0);
        assert(all_projects(w.roots, projects, y.0 + 1).len() == all_projects(
            w.roots,
            projects,
            y.0,
        ).len() + found(projects, y.0).len());
    }
}

} // verus!
