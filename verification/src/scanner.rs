//! Projects found under a window's roots, as tabs.

use crate::model::{
    copy_split, root_views, tab_views, window_views, Config, ConfigView, Root, RootView, Tab,
    TabView, Window, WindowView,
};
use crate::paths::{basename, basename_of};
use crate::reconcile::find_tab;
use crate::reconcile_laws::well_formed;
use crate::resolve::has_key;
use crate::resolve_laws::distinct_keys;
use crate::text::{copy_opt, views};
use vstd::prelude::*;

verus! {

/// What to do with an entry of a scanned directory.
#[derive(Debug, Clone, Copy, PartialEq, Eq, Structural)]
pub enum Visit {
    /// It is a project; what is below it is not looked at.
    Project,
    /// Look below it.
    Descend,
    /// Leave it.
    Skip,
}

/// What to do with an entry: a repository is a project, a plain directory is
/// searched while `levels` are left below it, and hidden directories and
/// symbolic links are left.
pub open spec fn visit_of(
    name: Seq<char>,
    is_dir: bool,
    is_symlink: bool,
    has_git: bool,
    levels: u32,
) -> Visit {
    if !is_dir || is_symlink || (name.len() > 0 && name[0] == '.') {
        Visit::Skip
    } else if has_git {
        Visit::Project
    } else if levels > 0 {
        Visit::Descend
    } else {
        Visit::Skip
    }
}

/// What to do with an entry of a scanned directory, with `levels` left below it.
pub fn visit(name: &str, is_dir: bool, is_symlink: bool, has_git: bool, levels: u32) -> (r: Visit)
    ensures
        r == visit_of(name@, is_dir, is_symlink, has_git, levels),
{
    if !is_dir || is_symlink || (name.unicode_len() > 0 && name.get_char(0) == '.') {
        Visit::Skip
    } else if has_git {
        Visit::Project
    } else if levels > 0 {
        Visit::Descend
    } else {
        Visit::Skip
    }
}

/// The tab of a project found under a root: known by its path, labelled with
/// its name, in the root's section and with the root's settings.
pub open spec fn project_tab(root: RootView, path: Seq<char>) -> TabView {
    TabView {
        id: None,
        key: path,
        title: basename_of(path),
        dir: path,
        shell: root.shell,
        startup: root.startup,
        load_on_open: false,
        group: Some(root.name),
        probe: root.probe,
        kill: root.kill,
        split: root.split,
    }
}

/// The tabs of the projects found under a root.
pub open spec fn project_tabs(root: RootView, paths: Seq<Seq<char>>) -> Seq<TabView> {
    paths.map_values(|p: Seq<char>| project_tab(root, p))
}

/// The tabs of the projects found under a root.
pub fn synthesize_tabs(root: &Root, projects: &Vec<String>) -> (r: Vec<Tab>)
    ensures
        tab_views(r@) == project_tabs(root@, views(projects@)),
{
    let ghost want = project_tabs(root@, views(projects@));
    let mut out: Vec<Tab> = Vec::new();
    let mut i: usize = 0;
    while i < projects.len()
        invariant
            i <= projects.len(),
            out.len() == i,
            want == project_tabs(root@, views(projects@)),
            forall|k: int| 0 <= k < i ==> #[trigger] out@[k]@ == want[k],
        decreases projects.len() - i,
    {
        assert(views(projects@)[i as int] == projects@[i as int]@);
        let path: &String = &projects[i];
        out.push(
            Tab {
                id: None,
                key: path.clone(),
                title: basename(path.as_str()),
                dir: path.clone(),
                shell: root.shell.clone(),
                startup: copy_opt(&root.startup),
                load_on_open: false,
                group: Some(root.name.clone()),
                probe: copy_opt(&root.probe),
                kill: copy_opt(&root.kill),
                split: copy_split(&root.split),
            },
        );
        i = i + 1;
    }
    assert(tab_views(out@) =~= want);
    out
}

/// `acc` with those of `tabs` after it whose identity is new, in order.
pub open spec fn first_of_each(acc: Seq<TabView>, tabs: Seq<TabView>) -> Seq<TabView>
    decreases tabs.len(),
{
    if tabs.len() == 0 {
        acc
    } else {
        let before = first_of_each(acc, tabs.drop_last());
        if has_key(before, tabs.last().key) {
            before
        } else {
            before.push(tabs.last())
        }
    }
}

/// The projects found under each root of a window, as far as they are given.
pub open spec fn found(projects: Seq<Vec<String>>, r: int) -> Seq<Seq<char>> {
    if 0 <= r < projects.len() {
        views(projects[r]@)
    } else {
        Seq::empty()
    }
}

/// The tabs of the projects found under the first `n` roots.
pub open spec fn all_projects(roots: Seq<RootView>, projects: Seq<Vec<String>>, n: int) -> Seq<
    TabView,
>
    decreases n,
{
    if n <= 0 {
        Seq::empty()
    } else {
        all_projects(roots, projects, n - 1) + project_tabs(roots[n - 1], found(projects, n - 1))
    }
}

/// The tabs of a window once its roots are searched: those it lists, then the
/// projects of each root, each identity once.
pub open spec fn effective_tabs(w: WindowView, projects: Seq<Vec<String>>) -> Seq<TabView> {
    first_of_each(
        Seq::empty(),
        w.tabs + all_projects(w.roots, projects, w.roots.len() as int),
    )
}

/// A configuration once its roots are searched.
pub open spec fn effective(c: ConfigView, projects: Seq<Vec<Vec<String>>>) -> ConfigView {
    ConfigView {
        windows: Seq::new(
            c.windows.len(),
            |i: int|
                WindowView {
                    tabs: effective_tabs(
                        c.windows[i],
                        if i < projects.len() {
                            projects[i]@
                        } else {
                            Seq::empty()
                        },
                    ),
                    ..c.windows[i]
                },
        ),
        ..c
    }
}

/// Append those of `more` whose identity is new.
fn append_new(tabs: &mut Vec<Tab>, more: &Vec<Tab>)
    ensures
        tab_views(final(tabs)@) == first_of_each(tab_views(old(tabs)@), tab_views(more@)),
{
    let ghost start = tab_views(tabs@);
    let ghost mv = tab_views(more@);
    let mut i: usize = 0;
    assert(mv.take(0) =~= Seq::empty());
    while i < more.len()
        invariant
            i <= more.len(),
            mv == tab_views(more@),
            tab_views(tabs@) == first_of_each(start, mv.take(i as int)),
        decreases more.len() - i,
    {
        let ghost before = tabs@;
        assert(mv.take(i + 1).drop_last() =~= mv.take(i as int));
        assert(mv.take(i + 1).last() == more@[i as int]@);
        if find_tab(tabs, more[i].key.as_str()).is_none() {
            tabs.push(more[i].clone());
            assert(tab_views(tabs@) =~= tab_views(before).push(more@[i as int]@));
        }
        i = i + 1;
    }
    assert(mv.take(i as int) =~= mv);
}

/// Appending in two goes is appending at once.
proof fn lemma_first_of_each_splits(acc: Seq<TabView>, a: Seq<TabView>, b: Seq<TabView>)
    ensures
        first_of_each(first_of_each(acc, a), b) == first_of_each(acc, a + b),
    decreases b.len(),
{
    if b.len() > 0 {
        lemma_first_of_each_splits(acc, a, b.drop_last());
        assert((a + b).drop_last() =~= a + b.drop_last());
        assert((a + b).last() == b.last());
    } else {
        assert(a + b =~= a);
    }
}

/// The tabs of a window once its roots are searched.
fn expand_window(w: &Window, projects: &Vec<Vec<String>>) -> (r: Window)
    ensures
        r@ == (WindowView { tabs: effective_tabs(w@, projects@), ..w@ }),
{
    let ghost rv = w@.roots;
    let mut out: Window = w.clone();
    let mut tabs: Vec<Tab> = Vec::new();
    assert(tab_views(tabs@) =~= Seq::empty());
    append_new(&mut tabs, &w.tabs);
    let mut i: usize = 0;
    assert(w@.tabs + all_projects(rv, projects@, 0) =~= w@.tabs);
    while i < w.roots.len()
        invariant
            i <= w.roots.len(),
            rv == root_views(w.roots@),
            rv == w@.roots,
            tab_views(tabs@) == first_of_each(
                Seq::empty(),
                w@.tabs + all_projects(rv, projects@, i as int),
            ),
        decreases w.roots.len() - i,
    {
        assert(rv[i as int] == w.roots@[i as int]@);
        if i < projects.len() {
            let more: Vec<Tab> = synthesize_tabs(&w.roots[i], &projects[i]);
            append_new(&mut tabs, &more);
            proof {
                lemma_first_of_each_splits(
                    Seq::empty(),
                    w@.tabs + all_projects(rv, projects@, i as int),
                    tab_views(more@),
                );
            }
            assert(w@.tabs + all_projects(rv, projects@, i as int) + tab_views(more@) =~= w@.tabs
                + all_projects(rv, projects@, i + 1));
        } else {
            assert(project_tabs(rv[i as int], Seq::empty()) =~= Seq::empty());
            assert(w@.tabs + all_projects(rv, projects@, i + 1) =~= w@.tabs + all_projects(
                rv,
                projects@,
                i as int,
            ));
        }
        i = i + 1;
    }
    out.tabs = tabs;
    out
}

/// A configuration with the projects of its roots as tabs. `projects` holds
/// the paths found under each root of each window. A listed tab shadows a
/// project at the same directory, and overlapping roots give one tab.
pub fn effective_config(config: &Config, projects: &Vec<Vec<Vec<String>>>) -> (r: Config)
    ensures
        r@ == effective(config@, projects@),
{
    let ghost want = effective(config@, projects@);
    let none: Vec<Vec<String>> = Vec::new();
    assert(none@ =~= Seq::empty());
    let mut windows: Vec<Window> = Vec::new();
    let mut i: usize = 0;
    while i < config.windows.len()
        invariant
            i <= config.windows.len(),
            windows.len() == i,
            none@ == Seq::<Vec<String>>::empty(),
            want == effective(config@, projects@),
            forall|k: int| 0 <= k < i ==> #[trigger] windows@[k]@ == want.windows[k],
        decreases config.windows.len() - i,
    {
        assert(config@.windows[i as int] == config.windows@[i as int]@);
        let w: Window = if i < projects.len() {
            expand_window(&config.windows[i], &projects[i])
        } else {
            expand_window(&config.windows[i], &none)
        };
        windows.push(w);
        i = i + 1;
    }
    assert(window_views(windows@) =~= want.windows);
    Config {
        windows,
        format_on_save: config.format_on_save,
        tab_digit_keys: config.tab_digit_keys,
        probe_interval: config.probe_interval,
        density: config.density,
        sidebar_drag: config.sidebar_drag,
        auto_update: config.auto_update,
        notify_debug: config.notify_debug,
    }
}

proof fn lemma_first_of_each(acc: Seq<TabView>, tabs: Seq<TabView>)
    requires
        distinct_keys(acc),
    ensures
        distinct_keys(first_of_each(acc, tabs)),
        first_of_each(acc, tabs).len() >= acc.len(),
        first_of_each(acc, tabs).take(acc.len() as int) == acc,
        forall|i: int|
            0 <= i < tabs.len() ==> has_key(first_of_each(acc, tabs), (#[trigger] tabs[i]).key),
    decreases tabs.len(),
{
    if tabs.len() > 0 {
        let rest = tabs.drop_last();
        let t = tabs.last();
        lemma_first_of_each(acc, rest);
        let before = first_of_each(acc, rest);
        let after = first_of_each(acc, tabs);
        if !has_key(before, t.key) {
            assert forall|a: int, b: int| 0 <= a < b < after.len() implies (
            #[trigger] after[a]).key != (#[trigger] after[b]).key by {
                if b < before.len() {
                    assert(after[a] == before[a] && after[b] == before[b]);
                } else {
                    assert(after[a] == before[a]);
                }
            }
            assert(after.take(acc.len() as int) =~= before.take(acc.len() as int));
            assert(after[before.len() as int].key == t.key);
        }
        assert forall|i: int| 0 <= i < tabs.len() implies has_key(
            after,
            (#[trigger] tabs[i]).key,
        ) by {
            if i < rest.len() {
                assert(rest[i] == tabs[i]);
                let k = choose|k: int|
                    0 <= k < before.len() && (#[trigger] before[k]).key == tabs[i].key;
                assert(after[k].key == tabs[i].key);
            }
        }
    } else {
        assert(acc.take(acc.len() as int) =~= acc);
    }
}

proof fn lemma_all_new(acc: Seq<TabView>, tabs: Seq<TabView>)
    requires
        distinct_keys(acc + tabs),
    ensures
        first_of_each(acc, tabs) == acc + tabs,
    decreases tabs.len(),
{
    if tabs.len() > 0 {
        let rest = tabs.drop_last();
        let t = tabs.last();
        let all = acc + tabs;
        assert forall|a: int, b: int| 0 <= a < b < (acc + rest).len() implies (
        #[trigger] (acc + rest)[a]).key != (#[trigger] (acc + rest)[b]).key by {
            assert((acc + rest)[a] == all[a] && (acc + rest)[b] == all[b]);
        }
        lemma_all_new(acc, rest);
        let before = acc + rest;
        if has_key(before, t.key) {
            let k = choose|k: int| 0 <= k < before.len() && (#[trigger] before[k]).key == t.key;
            assert(all[k] == before[k]);
            assert(all[all.len() - 1] == t);
        }
        assert(before.push(t) =~= acc + tabs);
    } else {
        assert(acc + tabs =~= acc);
    }
}

/// Once its roots are searched, every tab of a window has an identity of its
/// own; the tabs it lists come first and unchanged, so that each shadows a
/// project at its directory; and every project found is there.
pub proof fn law_listed_tabs_shadow_projects(w: WindowView, projects: Seq<Vec<String>>)
    requires
        distinct_keys(w.tabs),
    ensures
        distinct_keys(effective_tabs(w, projects)),
        effective_tabs(w, projects).len() >= w.tabs.len(),
        effective_tabs(w, projects).take(w.tabs.len() as int) == w.tabs,
        forall|i: int|
            0 <= i < all_projects(w.roots, projects, w.roots.len() as int).len() ==> has_key(
                effective_tabs(w, projects),
                (#[trigger] all_projects(w.roots, projects, w.roots.len() as int)[i]).key,
            ),
{
    let more = all_projects(w.roots, projects, w.roots.len() as int);
    assert(Seq::<TabView>::empty() + w.tabs =~= w.tabs);
    lemma_all_new(Seq::empty(), w.tabs);
    lemma_first_of_each_splits(Seq::empty(), w.tabs, more);
    lemma_first_of_each(w.tabs, more);
}

/// A well-formed configuration is still well formed once its roots are
/// searched, whatever was found.
pub proof fn law_searched_configs_are_well_formed(c: ConfigView, projects: Seq<Vec<Vec<String>>>)
    requires
        well_formed(c),
    ensures
        well_formed(effective(c, projects)),
{
    let e = effective(c, projects);
    assert forall|i: int| 0 <= i < e.windows.len() implies distinct_keys(
        (#[trigger] e.windows[i]).tabs,
    ) by {
        assert(distinct_keys(c.windows[i].tabs));
        law_listed_tabs_shadow_projects(
            c.windows[i],
            if i < projects.len() {
                projects[i]@
            } else {
                Seq::empty()
            },
        );
    }
    assert forall|i: int, j: int| 0 <= i < j < e.windows.len() implies (
    #[trigger] e.windows[i]).title != (#[trigger] e.windows[j]).title by {
        assert(c.windows[i].title != c.windows[j].title);
    }
}

} // verus!
