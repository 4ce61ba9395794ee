//! What holds of every path, and of what is made of one.

use crate::login::{config_file, login_shell_of, CONFIG_FILE, SYSTEM_SHELL};
use crate::model::{RootView, TabView, WindowView};
use crate::paths::{
    basename_of, components, dir_key, file_name_of, first_component, named, segments,
    tilde_expanded, tree_path_of,
};
use crate::plan::{plan_of, root_named, update_op};
use crate::reconcile::{first_keyed, first_titled, WindowUpdateView};
use crate::text::is_blank;
use crate::watch::{directory_of, path_of};
use vstd::prelude::*;

verus! {

/// A name that a path can end in: not empty, without a separator, and neither
/// of the two that stand for another directory.
pub open spec fn is_name(s: Seq<char>) -> bool {
    &&& s.len() > 0
    &&& !s.contains('/')
    &&& s != seq!['.']
    &&& s != seq!['.', '.']
}

proof fn lemma_segments(s: Seq<char>)
    ensures
        segments(s).len() > 0,
    decreases s.len(),
{
    if s.len() > 0 {
        lemma_segments(s.drop_last());
    }
}

/// Text without a separator goes to the last segment.
proof fn lemma_segments_grow(s: Seq<char>, name: Seq<char>)
    requires
        !name.contains('/'),
    ensures
        segments(s + name) == segments(s).drop_last().push(segments(s).last() + name),
    decreases name.len(),
{
    lemma_segments(s);
    if name.len() == 0 {
        assert(s + name =~= s);
        assert(segments(s).last() + name =~= segments(s).last());
        assert(segments(s).drop_last().push(segments(s).last()) =~= segments(s));
    } else {
        let head = name.drop_last();
        assert(!head.contains('/')) by {
            if head.contains('/') {
                let k = choose|k: int| 0 <= k < head.len() && head[k] == '/';
                assert(name[k] == '/');
            }
        }
        lemma_segments_grow(s, head);
        assert((s + name).drop_last() =~= s + head);
        assert((s + name).last() == name.last());
        assert(name[name.len() - 1] != '/');
        let before = segments(s + head);
        assert(before.drop_last() =~= segments(s).drop_last());
        assert((segments(s).last() + head).push(name.last()) =~= segments(s).last() + name);
    }
}

/// A segment behind a path is its last.
proof fn lemma_segments_joined(dir: Seq<char>, name: Seq<char>)
    requires
        !name.contains('/'),
    ensures
        segments(dir.push('/') + name) == segments(dir).push(name),
{
    lemma_segments_grow(dir.push('/'), name);
    assert(dir.push('/').drop_last() =~= dir);
    let s = segments(dir.push('/'));
    assert(s == segments(dir).push(Seq::empty()));
    assert(s.drop_last() =~= segments(dir));
    assert(Seq::<char>::empty() + name =~= name);
}

/// A name below a directory is one component more.
proof fn lemma_component_added(dir: Seq<char>, name: Seq<char>)
    requires
        is_name(name),
        dir.len() > 0,
    ensures
        components(dir.push('/') + name) == components(dir).push(name),
{
    let a = segments(dir);
    let b = segments(dir.push('/') + name);
    lemma_segments(dir);
    lemma_segments_joined(dir, name);
    assert(b[0] == a[0]);
    assert(b.skip(1) =~= a.skip(1).push(name));
    assert(b.skip(1).drop_last() =~= a.skip(1));
    assert(named(b.skip(1)) == named(a.skip(1)).push(name));
    lemma_absolute(dir);
    assert(first_component(a) == first_component(b));
    assert(components(dir.push('/') + name) =~= components(dir).push(name));
}

/// A path whose first segment is empty has more than that.
proof fn lemma_absolute(s: Seq<char>)
    requires
        s.len() > 0,
    ensures
        segments(s)[0].len() == 0 ==> segments(s).len() > 1,
    decreases s.len(),
{
    lemma_segments(s.drop_last());
    if s.len() > 1 {
        lemma_absolute(s.drop_last());
    } else {
        assert(s.drop_last().len() == 0);
    }
}

/// The file name of a path below a directory is the last name of it, whatever
/// the directory, and the name by which the path is called.
pub proof fn law_the_last_name_is_the_file_name(dir: Seq<char>, name: Seq<char>)
    requires
        is_name(name),
        dir.len() > 0,
    ensures
        file_name_of(dir.push('/') + name) == Some(name),
        basename_of(dir.push('/') + name) == name,
{
    lemma_component_added(dir, name);
    let cs = components(dir.push('/') + name);
    assert(cs.last() == name);
    if name == seq!['/'] {
        assert(name[0] == '/');
        assert(name.contains('/'));
    }
}

/// A separator at the end of a path changes nothing of what it is called.
pub proof fn law_a_trailing_separator_does_not_matter(s: Seq<char>)
    requires
        s.len() > 0,
    ensures
        components(s.push('/')) == components(s),
        file_name_of(s.push('/')) == file_name_of(s),
{
    let a = segments(s);
    let b = segments(s.push('/'));
    assert(s.push('/').drop_last() =~= s);
    assert(b == a.push(Seq::empty()));
    lemma_segments(s);
    lemma_absolute(s);
    assert(b[0] == a[0]);
    assert(b.skip(1) =~= a.skip(1).push(Seq::empty()));
    assert(b.skip(1).drop_last() =~= a.skip(1));
    assert(first_component(a) == first_component(b));
}

/// A single name is its own file name.
pub proof fn law_a_name_is_its_own_file_name(name: Seq<char>)
    requires
        is_name(name),
    ensures
        file_name_of(name) == Some(name),
        basename_of(name) == name,
{
    let empty = Seq::<char>::empty();
    lemma_segments_grow(empty, name);
    assert(empty + name =~= name);
    assert(segments(empty) == seq![empty]);
    assert(segments(name) =~= seq![name]);
    assert(segments(name).skip(1).len() == 0);
    assert(components(name) =~= seq![name]);
    if name == seq!['/'] {
        assert(name[0] == '/');
        assert(name.contains('/'));
    }
}

/// A leading `~` is the home directory, where there is one and the `~` stands
/// alone or before a separator; every other path is left as it is written.
pub proof fn law_a_tilde_is_the_home_directory(home: Seq<char>, rest: Seq<char>, s: Seq<char>)
    ensures
        tilde_expanded(seq!['~'], Some(home)) == home,
        home.len() > 0 && home.last() != '/' && !(rest.len() > 0 && rest[0] == '/')
            ==> tilde_expanded(seq!['~', '/'] + rest, Some(home)) == home.push('/') + rest,
        rest.len() > 0 && rest[0] == '/' ==> tilde_expanded(seq!['~', '/'] + rest, Some(home))
            == rest,
        !(home.len() > 0 && home.last() != '/') && !(rest.len() > 0 && rest[0] == '/')
            ==> tilde_expanded(seq!['~', '/'] + rest, Some(home)) == home + rest,
        tilde_expanded(s, None) == s,
        !(s.len() > 0 && s[0] == '~') ==> tilde_expanded(s, Some(home)) == s,
        s.len() > 1 && s[1] != '/' ==> tilde_expanded(s, Some(home)) == s,
{
    let t = seq!['~', '/'] + rest;
    assert(t.skip(2) =~= rest);
    assert(t.len() >= 2);
    if t == seq!['~'] {
        assert(t.len() == 1);
    }
    if s == seq!['~'] {
        assert(s.len() == 1 && s[0] == '~');
    }
}

/// Two paths that differ in a separator at the end alone are one directory, and
/// the root keeps its own.
pub proof fn law_one_directory_has_one_key(s: Seq<char>)
    ensures
        s.len() > 0 ==> dir_key(s.push('/')) == s,
        s.len() == 0 || s.last() != '/' ==> dir_key(s) == s,
        dir_key(seq!['/']) == seq!['/'],
{
    assert(s.push('/').drop_last() =~= s);
}

/// The folders of a project are those between its root and it; a directory
/// that is not below the root, or is the root, has none.
pub proof fn law_folders_lie_between(
    root: Seq<char>,
    dir: Seq<char>,
    between: Seq<Seq<char>>,
    last: Seq<char>,
)
    ensures
        components(dir) == components(root) + between.push(last) ==> tree_path_of(root, dir)
            == between,
        !(components(root).len() < components(dir).len() && components(dir).take(
            components(root).len() as int,
        ) == components(root)) ==> tree_path_of(root, dir).len() == 0,
{
    let r = components(root);
    let d = components(dir);
    if d == r + between.push(last) {
        assert(d.take(r.len() as int) =~= r);
        assert(d.subrange(r.len() as int, d.len() - 1) =~= between);
    }
}

/// Going down one folder is one folder more, and what is directly below a root
/// stands in none.
pub proof fn law_a_folder_down_is_one_more(root: Seq<char>, dir: Seq<char>, name: Seq<char>)
    requires
        is_name(name),
        root.len() > 0,
        dir.len() > 0,
    ensures
        tree_path_of(root, root.push('/') + name) == Seq::<Seq<char>>::empty(),
        components(root).len() < components(dir).len() && components(dir).take(
            components(root).len() as int,
        ) == components(root) ==> tree_path_of(root, dir.push('/') + name) == tree_path_of(
            root,
            dir,
        ).push(components(dir).last()),
{
    let r = components(root);
    lemma_component_added(root, name);
    let c = components(root.push('/') + name);
    assert(c.take(r.len() as int) =~= r);
    assert(c.subrange(r.len() as int, c.len() - 1) =~= Seq::<Seq<char>>::empty());
    let d = components(dir);
    lemma_component_added(dir, name);
    let e = components(dir.push('/') + name);
    if r.len() < d.len() && d.take(r.len() as int) == r {
        assert(e.take(r.len() as int) =~= d.take(r.len() as int));
        assert(e.subrange(r.len() as int, e.len() - 1) =~= d.subrange(
            r.len() as int,
            d.len() - 1,
        ).push(d.last()));
    }
}

proof fn lemma_root_named(roots: Seq<RootView>, name: Seq<char>)
    ensures
        match root_named(roots, name) {
            Some(r) => r.name == name && roots.contains(r),
            None => forall|i: int| 0 <= i < roots.len() ==> (#[trigger] roots[i]).name != name,
        },
    decreases roots.len(),
{
    if roots.len() > 0 {
        let rest = roots.drop_last();
        lemma_root_named(rest, name);
        assert(roots[roots.len() - 1] == roots.last());
        if roots.last().name != name {
            if root_named(rest, name) is Some {
                let r = root_named(rest, name)->0;
                let k = choose|k: int| 0 <= k < rest.len() && rest[k] == r;
                assert(roots[k] == r);
            } else {
                assert forall|i: int| 0 <= i < roots.len() implies (#[trigger] roots[i]).name
                    != name by {
                    if i < rest.len() {
                        assert(rest[i] == roots[i]);
                    }
                }
            }
        }
    }
}

/// A tab stands in a tree exactly where its section is that of a root, and its
/// folders there are those between that root and its directory; everywhere else
/// it has none. The plan for it is otherwise what is configured.
pub proof fn law_a_tab_stands_in_the_tree_of_its_root(roots: Seq<RootView>, t: TabView)
    ensures
        plan_of(roots, t).spec.tree <==> exists|i: int|
            0 <= i < roots.len() && t.group == Some((#[trigger] roots[i]).name),
        !plan_of(roots, t).spec.tree ==> plan_of(roots, t).spec.tree_path.len() == 0,
        plan_of(roots, t).spec.tree ==> exists|i: int|
            0 <= i < roots.len() && t.group == Some((#[trigger] roots[i]).name) && plan_of(
                roots,
                t,
            ).spec.tree_path == tree_path_of(roots[i].dir, t.dir),
        plan_of(roots, t).spec.id == t.key,
        plan_of(roots, t).spec.title == t.title,
        plan_of(roots, t).spec.dir == t.dir,
        plan_of(roots, t).spec.shell == t.shell,
        plan_of(roots, t).spec.startup == t.startup,
        plan_of(roots, t).spec.group == t.group,
        plan_of(roots, t).spec.probe == t.probe,
        plan_of(roots, t).spec.kill == t.kill,
        plan_of(roots, t).spec.split == t.split,
        plan_of(roots, t).load_on_open == t.load_on_open,
{
    if t.group is Some {
        let g = t.group->0;
        lemma_root_named(roots, g);
        if root_named(roots, g) is Some {
            let r = root_named(roots, g)->0;
            let i = choose|i: int| 0 <= i < roots.len() && roots[i] == r;
            assert(t.group == Some(roots[i].name));
        }
    }
}

/// The configuration file is the one that the environment names, where it names
/// one, and else the one in the home directory.
pub proof fn law_the_environment_names_the_config(env: Seq<char>, home: Option<Seq<char>>)
    ensures
        env.len() > 0 ==> config_file(Some(env), home) == env,
        config_file(Some(Seq::empty()), home) == config_file(None, home),
        config_file(None, None) == CONFIG_FILE@,
        home is Some && home->0.len() > 0 && home->0.last() != '/' ==> config_file(None, home)
            == home->0 + "/.config/warden/config.toml"@,
{
    reveal_strlit("~/.config/warden/config.toml");
    reveal_strlit("/.config/warden/config.toml");
    if home is Some {
        let rest = CONFIG_FILE@.skip(2);
        assert(CONFIG_FILE@ =~= seq!['~', '/'] + rest);
        assert(rest[0] == '.');
        law_a_tilde_is_the_home_directory(home->0, rest, rest);
        assert(home->0.push('/') + rest =~= home->0 + "/.config/warden/config.toml"@);
    }
}

/// A login shell is the user's own, and the system's where none is known.
pub proof fn law_a_login_shell_is_the_users_own(shell: Seq<char>)
    ensures
        !is_blank(shell) ==> login_shell_of(Some(shell)) == shell + " -l"@,
        is_blank(shell) ==> login_shell_of(Some(shell)) == login_shell_of(None),
        login_shell_of(None) == SYSTEM_SHELL@ + " -l"@,
{
}

/// The directory of a path below another is that other.
pub proof fn law_a_file_is_watched_in_its_directory(dir: Seq<char>, name: Seq<char>)
    requires
        is_name(name),
        dir.len() > 0,
    ensures
        components(dir).len() > 0 ==> directory_of(dir.push('/') + name) == path_of(
            components(dir),
        ),
{
    lemma_component_added(dir, name);
    let cs = components(dir.push('/') + name);
    assert(cs.drop_last() =~= components(dir));
}

/// A file name alone is watched in the directory that one is in.
pub proof fn law_a_bare_file_is_watched_here(name: Seq<char>)
    requires
        is_name(name),
    ensures
        directory_of(name) == "."@,
{
    let empty = Seq::<char>::empty();
    lemma_segments_grow(empty, name);
    assert(empty + name =~= name);
    assert(segments(empty) == seq![empty]);
    assert(segments(name) =~= seq![name]);
    assert(segments(name).skip(1).len() == 0);
    assert(components(name) =~= seq![name]);
}

/// A path is put together from its components with one separator between two,
/// and none behind the root.
pub proof fn law_components_make_the_path(cs: Seq<Seq<char>>, name: Seq<char>)
    ensures
        path_of(cs).len() > 0 && path_of(cs) != "/"@ ==> path_of(cs.push(name)) == path_of(cs)
            + "/"@ + name,
        path_of(cs) == "/"@ ==> path_of(cs.push(name)) == "/"@ + name,
        path_of(seq![name]) == name,
{
    assert(cs.push(name).drop_last() =~= cs);
    let one = seq![name];
    assert(one.drop_last() =~= Seq::empty());
    assert(path_of(Seq::<Seq<char>>::empty()).len() == 0);
    assert(path_of(one.drop_last()) + name =~= name);
}

/// A `.` below a directory is that directory, and a `..` is a component of its
/// own that is no file name.
pub proof fn law_dots_are_no_file_names(dir: Seq<char>)
    requires
        dir.len() > 0,
    ensures
        components(dir.push('/') + seq!['.']) == components(dir),
        components(dir.push('/') + seq!['.', '.']) == components(dir).push(seq!['.', '.']),
        file_name_of(dir.push('/') + seq!['.', '.']) is None,
        basename_of(dir.push('/') + seq!['.', '.']) == dir.push('/') + seq!['.', '.'],
{
    let one = seq!['.'];
    let two = seq!['.', '.'];
    assert(!one.contains('/') && !two.contains('/'));
    let a = segments(dir);
    lemma_segments(dir);
    lemma_absolute(dir);
    lemma_segments_joined(dir, one);
    lemma_segments_joined(dir, two);
    let b = segments(dir.push('/') + one);
    let c = segments(dir.push('/') + two);
    assert(b[0] == a[0] && c[0] == a[0]);
    assert(b.skip(1) =~= a.skip(1).push(one));
    assert(b.skip(1).drop_last() =~= a.skip(1));
    assert(c.skip(1) =~= a.skip(1).push(two));
    assert(c.skip(1).drop_last() =~= a.skip(1));
    assert(two.len() == 2 && one.len() == 1);
    assert(two != one);
    assert(named(c.skip(1)) == named(a.skip(1)).push(two));
    assert(components(dir.push('/') + two) =~= components(dir).push(two));
    assert(components(dir.push('/') + two).last() == two);
}

/// A tab that stays, and whose section changes, stands in the tree of the root
/// that its new section is of, in the folders between that root and its
/// directory, and else in none.
pub proof fn law_a_moved_tab_stands_in_its_new_tree(
    windows: Seq<WindowView>,
    u: WindowUpdateView,
    label: Seq<char>,
    k: int,
    w: WindowView,
    t: TabView,
)
    requires
        0 <= k < u.set_meta.len(),
        first_titled(windows, u.title) == Some(w),
        first_keyed(w.tabs, u.set_meta[k].0) == Some(t),
    ensures
        ({
            let m = update_op(windows, u, label).set_meta[k];
            let group = u.set_meta[k].1.group;
            &&& m.id == u.set_meta[k].0
            &&& m.meta == u.set_meta[k].1
            &&& m.tree <==> exists|i: int|
                0 <= i < w.roots.len() && group == Some((#[trigger] w.roots[i]).name)
            &&& !m.tree ==> m.tree_path.len() == 0
            &&& m.tree ==> exists|i: int|
                0 <= i < w.roots.len() && group == Some((#[trigger] w.roots[i]).name)
                    && m.tree_path == tree_path_of(w.roots[i].dir, t.dir)
        }),
{
    let group = u.set_meta[k].1.group;
    if group is Some {
        lemma_root_named(w.roots, group->0);
        if root_named(w.roots, group->0) is Some {
            let r = root_named(w.roots, group->0)->0;
            let i = choose|i: int| 0 <= i < w.roots.len() && w.roots[i] == r;
            assert(group == Some(w.roots[i].name));
        }
    }
}

} // verus!
