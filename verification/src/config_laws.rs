//! What each setting of a configuration comes to.

use crate::colour::{parsed, Colour};
use crate::model::{ConfigView, Density, TabDigitKeys, WarningView};
use crate::paths::{basename_of, dir_key, tilde_expanded};
use crate::raw::RawConfigView;
use crate::resolve::{
    checks_of, checks_upto, config_of, outcome_at, scope_of, tab_of, warnings_of, window_checks,
    DirCheckView,
};
use crate::resolve_laws::{
    law_roots_keep_file_order, law_tabs_keep_file_order, law_windows_keep_file_order, written_tabs,
};
use crate::text::{is_blank, trimmed};
use vstd::prelude::*;

verus! {

/// Whether `r` is what the first of three levels says that says anything: none
/// where that is blank, and none where no level does.
pub open spec fn first_said(
    r: Option<Seq<char>>,
    near: Option<Seq<char>>,
    window: Option<Seq<char>>,
    global: Option<Seq<char>>,
) -> bool {
    match (near, window, global) {
        (Some(s), _, _) => r == said(s),
        (None, Some(s), _) => r == said(s),
        (None, None, Some(s)) => r == said(s),
        (None, None, None) => r is None,
    }
}

/// A value, unless it is blank.
pub open spec fn said(s: Seq<char>) -> Option<Seq<char>> {
    if is_blank(s) {
        None
    } else {
        Some(s)
    }
}

/// Whether `shell` is the first that a level names, or the fallback where none
/// does.
pub open spec fn shell_said(
    shell: Seq<char>,
    near: Option<Seq<char>>,
    window: Option<Seq<char>>,
    global: Option<Seq<char>>,
    fallback: Seq<char>,
) -> bool {
    first_said(Some(shell), near, window, global) || (first_said(None, near, window, global)
        && shell == fallback)
}

/// Each tab of a resolved configuration is what is written of it: it runs in
/// its own directory, is called by its title or else by the name of that
/// directory, and is known by its identity or else by the directory. What it
/// runs, what watches it and what ends it is each decided by the setting of
/// that name and no other, on the tab, its window or the whole file.
pub proof fn law_a_tab_is_what_is_written(
    raw: RawConfigView,
    default_shell: Seq<char>,
    home: Option<Seq<char>>,
    i: int,
    j: int,
)
    requires
        config_of(raw, default_shell, home) is Ok,
        0 <= i < raw.windows.len(),
        0 <= j < written_tabs(raw.windows[i]).len(),
    ensures
        ({
            let w = raw.windows[i];
            let c = config_of(raw, default_shell, home)->Ok_0.windows[i];
            let t = c.tabs[j];
            let rt = written_tabs(w)[j].tab;
            &&& c.tabs.len() == written_tabs(w).len()
            &&& t.dir == tilde_expanded(trimmed(rt.dir), home)
            &&& rt.title matches Some(s) ==> t.title == trimmed(s)
            &&& rt.title is None ==> t.title == basename_of(t.dir)
            &&& t.group == written_tabs(w)[j].group
            &&& t.load_on_open == rt.load_on_open
            &&& rt.id is Some && !is_blank(rt.id->0) ==> t.id == Some(trimmed(rt.id->0)) && t.key
                == trimmed(rt.id->0)
            &&& rt.id is None || is_blank(rt.id->0) ==> t.id is None && t.key == dir_key(t.dir)
            &&& first_said(t.startup, rt.cmd, w.cmd, raw.cmd)
            &&& first_said(t.probe, rt.probe, w.probe, raw.probe)
            &&& first_said(t.kill, rt.kill, w.kill, raw.kill)
            &&& shell_said(t.shell, rt.shell, w.shell, raw.shell, default_shell)
            &&& t.split is None
        }),
{
    let sc = scope_of(raw, default_shell, home);
    law_windows_keep_file_order(raw, default_shell, home);
    let w = raw.windows[i];
    law_tabs_keep_file_order(w, sc);
    let x = written_tabs(w)[j];
    assert(tab_of(x.tab, x.group, w, sc) is Ok);
}

/// Each root of a resolved configuration is what is written of it, and its
/// projects run, are watched and are ended as the settings of those names say.
pub proof fn law_a_root_is_what_is_written(
    raw: RawConfigView,
    default_shell: Seq<char>,
    home: Option<Seq<char>>,
    i: int,
    j: int,
)
    requires
        config_of(raw, default_shell, home) is Ok,
        0 <= i < raw.windows.len(),
        0 <= j < raw.windows[i].roots.len(),
    ensures
        ({
            let w = raw.windows[i];
            let c = config_of(raw, default_shell, home)->Ok_0.windows[i];
            let r = c.roots[j];
            let rr = w.roots[j];
            &&& c.roots.len() == w.roots.len()
            &&& r.dir == tilde_expanded(trimmed(rr.dir), home)
            &&& rr.name matches Some(s) ==> r.name == trimmed(s)
            &&& rr.name is None ==> r.name == basename_of(r.dir)
            &&& rr.depth matches Some(d) ==> r.depth == d
            &&& rr.depth is None ==> r.depth == 6
            &&& first_said(r.startup, rr.cmd, w.cmd, raw.cmd)
            &&& first_said(r.probe, rr.probe, w.probe, raw.probe)
            &&& first_said(r.kill, rr.kill, w.kill, raw.kill)
            &&& shell_said(r.shell, rr.shell, w.shell, raw.shell, default_shell)
            &&& r.split is None
        }),
{
    let sc = scope_of(raw, default_shell, home);
    law_windows_keep_file_order(raw, default_shell, home);
    law_roots_keep_file_order(raw.windows[i], sc);
    assert(crate::resolve::root_of(raw.windows[i].roots[j], raw.windows[i], sc) is Ok);
}

/// Each window of a resolved configuration has the title, the colour and the
/// size that are written of it, and opens at launch unless it says not to.
pub proof fn law_a_window_is_what_is_written(
    raw: RawConfigView,
    default_shell: Seq<char>,
    home: Option<Seq<char>>,
    i: int,
)
    requires
        config_of(raw, default_shell, home) is Ok,
        0 <= i < raw.windows.len(),
    ensures
        ({
            let w = raw.windows[i];
            let c = config_of(raw, default_shell, home)->Ok_0.windows[i];
            &&& c.title == trimmed(w.title)
            &&& w.colour matches Some(s) ==> Ok::<Colour, crate::colour::ColourErrorView>(c.colour)
                == parsed(s)
            &&& w.colour is None ==> c.colour == (Colour { r: 0x6b, g: 0x72, b: 0x80 })
            &&& w.width matches Some(x) ==> c.width == x
            &&& w.width is None ==> c.width == 1500
            &&& w.height matches Some(x) ==> c.height == x
            &&& w.height is None ==> c.height == 1000
            &&& c.open_on_start <==> w.open_on_start != Some(false)
        }),
{
    law_windows_keep_file_order(raw, default_shell, home);
    assert(crate::resolve::window_of(
        raw.windows[i],
        scope_of(raw, default_shell, home),
    ) is Ok);
}

/// The switches of a resolved configuration are those that are written, each
/// under its own name: what formats on save and what says more of notices is
/// off unless it is switched on, the dragging of the sidebar and the updates
/// are on unless they are switched off.
pub proof fn law_switches_are_what_is_written(
    raw: RawConfigView,
    default_shell: Seq<char>,
    home: Option<Seq<char>>,
)
    requires
        config_of(raw, default_shell, home) is Ok,
    ensures
        ({
            let c = config_of(raw, default_shell, home)->Ok_0;
            &&& c.format_on_save <==> raw.format_on_save == Some(true)
            &&& c.notify_debug <==> raw.notify_debug == Some(true)
            &&& !c.sidebar_drag <==> raw.sidebar_drag == Some(false)
            &&& !c.auto_update <==> raw.auto_update == Some(false)
            &&& raw.probe_interval matches Some(n) ==> c.probe_interval == n
            &&& raw.probe_interval is None ==> c.probe_interval == 5
            &&& c.tab_digit_keys == TabDigitKeys::Cycle <==> raw.tab_digit_keys is Some && trimmed(
                raw.tab_digit_keys->0,
            ) == "cycle"@
            &&& c.density == Density::Compact <==> raw.density is Some && trimmed(raw.density->0)
                == "compact"@
        }),
{
    reveal_strlit("cycle");
    reveal_strlit("jump");
    reveal_strlit("compact");
    reveal_strlit("comfortable");
    assert("cycle"@.len() == 5 && "jump"@.len() == 4);
    assert("compact"@.len() == 7 && "comfortable"@.len() == 11);
}

proof fn lemma_warnings(checks: Seq<DirCheckView>, present: Seq<bool>, x: WarningView)
    ensures
        warnings_of(checks, present).contains(x) <==> exists|k: int|
            0 <= k < checks.len() && !present[k] && x.window == (#[trigger] checks[k]).window
                && x.message == if checks[k].root {
                "root dir does not exist: "@ + checks[k].dir
            } else {
                "dir does not exist: "@ + checks[k].dir
            },
    decreases checks.len(),
{
    if checks.len() > 0 {
        let rest = checks.drop_last();
        let n = checks.len() - 1;
        lemma_warnings(rest, present, x);
        let q = warnings_of(rest, present);
        let r = warnings_of(checks, present);
        assert(checks[n] == checks.last());
        assert forall|k: int| 0 <= k < n implies #[trigger] rest[k] == checks[k] by {}
        if q.contains(x) {
            let k = choose|k: int| 0 <= k < q.len() && q[k] == x;
            assert(r[k] == x);
            let j = choose|k: int|
                0 <= k < rest.len() && !present[k] && x.window == (#[trigger] rest[k]).window
                    && x.message == if rest[k].root {
                    "root dir does not exist: "@ + rest[k].dir
                } else {
                    "dir does not exist: "@ + rest[k].dir
                };
            assert(rest[j] == checks[j]);
        }
        if !present[n] {
            assert(r[q.len() as int] == crate::resolve::warning_of(checks[n]));
        }
        if r.contains(x) {
            let k = choose|k: int| 0 <= k < r.len() && r[k] == x;
            if k < q.len() {
                assert(q[k] == x);
            }
        }
        if exists|k: int|
            0 <= k < checks.len() && !present[k] && x.window == (#[trigger] checks[k]).window
                && x.message == if checks[k].root {
                "root dir does not exist: "@ + checks[k].dir
            } else {
                "dir does not exist: "@ + checks[k].dir
            } {
            let k = choose|k: int|
                0 <= k < checks.len() && !present[k] && x.window == (#[trigger] checks[k]).window
                    && x.message == if checks[k].root {
                    "root dir does not exist: "@ + checks[k].dir
                } else {
                    "dir does not exist: "@ + checks[k].dir
                };
            if k < n {
                assert(rest[k] == checks[k]);
            }
        }
    } else {
        assert(warnings_of(checks, present).len() == 0);
    }
}

/// A warning is given exactly for a directory that is looked for and missing:
/// it names the window and the directory, and says of a root that it is one.
pub proof fn law_missing_dirs_are_warned_of(
    raw: RawConfigView,
    default_shell: Seq<char>,
    home: Option<Seq<char>>,
    present: Seq<bool>,
    x: WarningView,
)
    requires
        outcome_at(raw, default_shell, home, present) is Ok,
    ensures
        ({
            let out = outcome_at(raw, default_shell, home, present)->Ok_0;
            let checks = checks_of(raw, out.0);
            out.1.contains(x) <==> exists|k: int|
                0 <= k < checks.len() && !present[k] && x.window == (#[trigger] checks_of(
                    raw,
                    out.0,
                )[k]).window && x.message == if checks[k].root {
                    "root dir does not exist: "@ + checks[k].dir
                } else {
                    "dir does not exist: "@ + checks[k].dir
                }
        }),
{
    let out = outcome_at(raw, default_shell, home, present)->Ok_0;
    lemma_warnings(checks_of(raw, out.0), present, x);
}

proof fn lemma_checks(
    raw: RawConfigView,
    c: ConfigView,
    n: int,
    i: int,
    x: DirCheckView,
)
    requires
        0 <= i < n <= c.windows.len(),
        window_checks(raw.windows[i].title, c.windows[i]).contains(x),
    ensures
        checks_upto(raw.windows, c.windows, n).contains(x),
    decreases n,
{
    let a = checks_upto(raw.windows, c.windows, n - 1);
    let b = window_checks(raw.windows[n - 1].title, c.windows[n - 1]);
    if i < n - 1 {
        lemma_checks(raw, c, n - 1, i, x);
        let k = choose|k: int| 0 <= k < a.len() && a[k] == x;
        assert((a + b)[k] == x);
    } else {
        let k = choose|k: int| 0 <= k < b.len() && b[k] == x;
        assert((a + b)[a.len() + k] == x);
    }
}

/// Every directory of every tab and of every root is looked for, as one of the
/// window that it stands in.
pub proof fn law_every_dir_is_looked_for(raw: RawConfigView, c: ConfigView, i: int, j: int)
    requires
        0 <= i < c.windows.len(),
    ensures
        0 <= j < c.windows[i].tabs.len() ==> checks_of(raw, c).contains(
            (DirCheckView {
                window: raw.windows[i].title,
                dir: c.windows[i].tabs[j].dir,
                root: false,
            }),
        ),
        0 <= j < c.windows[i].roots.len() ==> checks_of(raw, c).contains(
            (DirCheckView {
                window: raw.windows[i].title,
                dir: c.windows[i].roots[j].dir,
                root: true,
            }),
        ),
{
    let w = c.windows[i];
    let b = window_checks(raw.windows[i].title, w);
    if 0 <= j < w.tabs.len() {
        let x = DirCheckView { window: raw.windows[i].title, dir: w.tabs[j].dir, root: false };
        assert(b[j] == x);
        lemma_checks(raw, c, c.windows.len() as int, i, x);
    }
    if 0 <= j < w.roots.len() {
        let x = DirCheckView { window: raw.windows[i].title, dir: w.roots[j].dir, root: true };
        assert(b[w.tabs.len() + j] == x);
        lemma_checks(raw, c, c.windows.len() as int, i, x);
    }
}

/// What is looked for is the directory of a tab or of a root, as one of the
/// window that it stands in.
pub proof fn law_no_other_dir_is_looked_for(raw: RawConfigView, c: ConfigView, x: DirCheckView)
    requires
        checks_of(raw, c).contains(x),
    ensures
        exists|i: int, j: int|
            {
                &&& 0 <= i < c.windows.len()
                &&& x.window == raw.windows[i].title
                &&& #[trigger] is_dir_of(c, i, j, x)
            },
{
    lemma_checks_back(raw, c, c.windows.len() as int, x);
}

/// Whether a directory to look for is that of tab or root `j` of window `i`.
pub open spec fn is_dir_of(c: ConfigView, i: int, j: int, x: DirCheckView) -> bool {
    if x.root {
        0 <= j < c.windows[i].roots.len() && x.dir == c.windows[i].roots[j].dir
    } else {
        0 <= j < c.windows[i].tabs.len() && x.dir == c.windows[i].tabs[j].dir
    }
}

proof fn lemma_checks_back(raw: RawConfigView, c: ConfigView, n: int, x: DirCheckView)
    requires
        0 <= n <= c.windows.len(),
        checks_upto(raw.windows, c.windows, n).contains(x),
    ensures
        exists|i: int, j: int|
            {
                &&& 0 <= i < c.windows.len()
                &&& x.window == raw.windows[i].title
                &&& #[trigger] is_dir_of(c, i, j, x)
            },
    decreases n,
{
    if n > 0 {
        let a = checks_upto(raw.windows, c.windows, n - 1);
        let w = c.windows[n - 1];
        let b = window_checks(raw.windows[n - 1].title, w);
        let k = choose|k: int| 0 <= k < (a + b).len() && (a + b)[k] == x;
        if k < a.len() {
            assert(a[k] == x);
            lemma_checks_back(raw, c, n - 1, x);
        } else if k - a.len() < w.tabs.len() {
            assert(b[k - a.len()] == x);
            assert(is_dir_of(c, n - 1, k - a.len(), x));
        } else {
            assert(b[k - a.len()] == x);
            assert(is_dir_of(c, n - 1, k - a.len() - w.tabs.len(), x));
        }
    }
}

} // verus!
