//! What is on screen is what the configuration lists: a reload brings every
//! window in line with it.

use crate::colour::hex_text;
use crate::lifecycle::{
    applying, builds, changes_nothing, materializing, op_applies, opened, operations, ops_apply,
    recoloured, reloading, reopenable, reopening, rescanning, restyling, spec_labelled, starting,
    update_applies, updated, updating, window_closed, window_gone, window_removed,
};
use crate::manager::{
    current_specs, is_live, is_snapshot, labels_of, lemma_rank, put_window, settled, window_index,
    without, without_label, without_title, InitDtoView, ManagerView, WindowStateView,
};
use crate::manager_laws::{
    as_planned, in_order, law_activating_ends_no_terminal, law_built_windows_have_all_their_tabs,
    law_closing_keeps_order, law_opening_keeps_order, law_settling_keeps_order,
    lemma_ops_keep_order, lemma_spec_labelled, tab_ids,
};
use crate::model::{ConfigView, TabView, WindowView};
use crate::plan::{
    close_ops, configured, label_of, labelled, open_ops, ops_of, plan_of, spec_of, update_op, update_ops,
    TabUpdateView, WindowOpView, WindowSpecView, HOME_LABEL,
};
use crate::plan_laws::{law_labels_are_unique, lemma_labelled, live_apart};
use crate::presence::known_of;
use crate::reconcile::{
    changed_meta, changes, difference, differs, first_keyed, first_titled, keys_of,
    lemma_first_keyed, lemma_first_titled, meta_of, titles_not_in, updates, windows_not_in,
    WindowUpdateView,
};
use crate::reconcile_laws::{
    law_no_update_means_unchanged, law_tabs_are_accounted_for, lemma_titles_not_in, lemma_window_finds_itself,
    lemma_windows_not_in, well_formed,
};
use crate::registry::{
    activate_report, activated, activation, detached, focus_moved, framed, lean_target, leaned,
    leans, lemma_position, position, rank, secondary_closed, split_tab, surfaces_closed,
    unload_leans, unloading, Ask, Outcome, PaneIdx, PixelRect, RegistryView, TabEntryView,
};
use crate::reload_laws::{
    carries, in_line, law_an_update_brings_a_window_in_line, law_an_update_tells_every_tab,
    lemma_changed_meta, lemma_distinct_keys, lemma_plan_ids, runs_as, told,
};
use crate::resolve::{has_key, has_title};
use crate::resolve_laws::{distinct_keys, distinct_titles};
use crate::surface::SurfaceError;
use vstd::prelude::*;

verus! {

/// The live window labelled `label`, if there is one.
pub open spec fn window_at(m: ManagerView, label: Seq<char>) -> Option<WindowStateView> {
    if is_live(m, label) {
        Some(m.windows[window_index(m, label)])
    } else {
        None
    }
}

proof fn lemma_window_at(m: ManagerView, i: int)
    requires
        labels_of(m.windows).no_duplicates(),
        0 <= i < m.windows.len(),
    ensures
        window_at(m, m.windows[i].label) == Some(m.windows[i]),
{
    let ls = labels_of(m.windows);
    let l = m.windows[i].label;
    lemma_rank(ls, l);
    assert(ls[i] == l);
    assert(ls.contains(l));
}

proof fn lemma_window_found(m: ManagerView, label: Seq<char>)
    ensures
        window_at(m, label) matches Some(w) ==> w.label == label && m.windows.contains(w),
{
    let ls = labels_of(m.windows);
    lemma_rank(ls, label);
    if is_live(m, label) {
        let i = window_index(m, label);
        assert(ls[i] == m.windows[i].label);
    }
}

/// Managers with the same window under a label find the same one there.
proof fn lemma_same_at(a: ManagerView, b: ManagerView, label: Seq<char>)
    requires
        labels_of(a.windows).no_duplicates(),
        labels_of(b.windows).no_duplicates(),
        forall|w: WindowStateView|
            w.label == label ==> #[trigger] a.windows.contains(w) == b.windows.contains(w),
    ensures
        window_at(a, label) == window_at(b, label),
{
    lemma_window_found(a, label);
    lemma_window_found(b, label);
    match window_at(a, label) {
        Some(w) => {
            assert(b.windows.contains(w));
            let i = choose|i: int| 0 <= i < b.windows.len() && b.windows[i] == w;
            lemma_window_at(b, i);
        },
        None => {
            match window_at(b, label) {
                Some(w) => {
                    assert(a.windows.contains(w));
                    let i = choose|i: int| 0 <= i < a.windows.len() && a.windows[i] == w;
                    lemma_window_at(a, i);
                },
                None => {},
            }
        },
    }
}

/// The label of the window that an operation is about.
pub open spec fn op_label(op: WindowOpView) -> Seq<char> {
    match op {
        WindowOpView::Open(s) => s.label,
        WindowOpView::Close(l) => l,
        WindowOpView::Update(u) => u.label,
    }
}

/// A built window, as it is kept.
spec fn kept_as(w: WindowStateView) -> WindowStateView {
    WindowStateView { registry: RegistryView { outbox: Seq::empty(), ..w.registry }, ..w }
}

proof fn lemma_opened_at(m: ManagerView, s: WindowSpecView, w: WindowStateView, label: Seq<char>)
    requires
        in_order(m),
        w.label == s.label,
    ensures
        window_at(opened(m, s, w), label) == (if label == s.label {
            Some(kept_as(w))
        } else {
            window_at(m, label)
        }),
{
    let n = opened(m, s, w);
    let q = kept_as(w);
    let ls = labels_of(m.windows);
    law_opening_keeps_order(m, s, w);
    lemma_rank(ls, s.label);
    let i = rank(ls, s.label);
    assert(n.windows == put_window(m.windows, q));
    if label == s.label {
        if i < m.windows.len() {
            assert(n.windows[i] == q);
            lemma_window_at(n, i);
        } else {
            assert(n.windows[m.windows.len() as int] == q);
            lemma_window_at(n, m.windows.len() as int);
        }
    } else {
        assert forall|x: WindowStateView| x.label == label implies #[trigger] n.windows.contains(x)
            == m.windows.contains(x) by {
            if n.windows.contains(x) {
                let k = choose|k: int| 0 <= k < n.windows.len() && n.windows[k] == x;
                assert(m.windows[k] == x);
            }
            if m.windows.contains(x) {
                let k = choose|k: int| 0 <= k < m.windows.len() && m.windows[k] == x;
                assert(ls[k] == label);
                assert(n.windows[k] == x);
            }
        }
        lemma_same_at(n, m, label);
    }
}

proof fn lemma_closed_at(m: ManagerView, gone: Seq<char>, label: Seq<char>)
    requires
        in_order(m),
    ensures
        window_at(window_closed(m, gone), label) == (if label == gone {
            None
        } else {
            window_at(m, label)
        }),
{
    let n = window_closed(m, gone);
    let ls = labels_of(m.windows);
    law_closing_keeps_order(m, gone);
    lemma_rank(ls, gone);
    if is_live(m, gone) {
        let i = window_index(m, gone);
        assert(n.windows == m.windows.remove(i));
        if label == gone {
            assert(labels_of(n.windows) == labels_of(window_removed(m, gone).windows));
        } else {
            assert forall|x: WindowStateView| x.label == label implies #[trigger]
                n.windows.contains(x) == m.windows.contains(x) by {
                if n.windows.contains(x) {
                    let k = choose|k: int| 0 <= k < n.windows.len() && n.windows[k] == x;
                    assert(m.windows[if k < i {
                        k
                    } else {
                        k + 1
                    }] == x);
                }
                if m.windows.contains(x) {
                    let k = choose|k: int| 0 <= k < m.windows.len() && m.windows[k] == x;
                    assert(ls[k] == label);
                    assert(ls[i] == gone);
                    assert(n.windows[if k < i {
                        k
                    } else {
                        k - 1
                    }] == x);
                }
            }
            lemma_same_at(n, m, label);
        }
    }
}

/// Replacing window `i` by one under the same label changes no other.
proof fn lemma_replaced_at(
    m: ManagerView,
    n: ManagerView,
    i: int,
    w: WindowStateView,
    label: Seq<char>,
)
    requires
        labels_of(m.windows).no_duplicates(),
        0 <= i < m.windows.len(),
        w.label == m.windows[i].label,
        n.windows == m.windows.update(i, w),
    ensures
        labels_of(n.windows) == labels_of(m.windows),
        window_at(n, label) == (if label == w.label {
            Some(w)
        } else {
            window_at(m, label)
        }),
{
    assert(labels_of(n.windows) =~= labels_of(m.windows));
    let ls = labels_of(m.windows);
    if label == w.label {
        assert(n.windows[i] == w);
        lemma_window_at(n, i);
    } else {
        assert forall|x: WindowStateView| x.label == label implies #[trigger] n.windows.contains(x)
            == m.windows.contains(x) by {
            if n.windows.contains(x) {
                let k = choose|k: int| 0 <= k < n.windows.len() && n.windows[k] == x;
                assert(m.windows[k] == x);
            }
            if m.windows.contains(x) {
                let k = choose|k: int| 0 <= k < m.windows.len() && m.windows[k] == x;
                assert(ls[k] == label);
                assert(ls[i] == w.label);
                assert(n.windows[k] == x);
            }
        }
        lemma_same_at(n, m, label);
    }
}

/// Whether an update may turn window `w` into `x`.
spec fn turns_into<F: Fn(&Ask) -> Outcome>(
    spawn: &F,
    w: WindowStateView,
    u: TabUpdateView,
    x: WindowStateView,
) -> bool {
    if changes_nothing(w.registry, u) {
        x == w
    } else {
        exists|v: RegistryView|
            {
                &&& #[trigger] updating(spawn, w.registry, u, v)
                &&& x == (WindowStateView {
                    colour: match u.colour {
                        Some(c) => c,
                        None => w.colour,
                    },
                    registry: RegistryView { outbox: Seq::empty(), ..v },
                    ..w
                })
            }
    }
}

proof fn lemma_updated_at<F: Fn(&Ask) -> Outcome>(
    spawn: &F,
    m: ManagerView,
    u: TabUpdateView,
    c: ConfigView,
    n: ManagerView,
    label: Seq<char>,
)
    requires
        in_order(m),
        update_applies(spawn, m, u, c, n),
    ensures
        n.names == m.names,
        label != u.label ==> window_at(n, label) == window_at(m, label),
        window_at(m, u.label) is None ==> window_at(n, u.label) is None,
        window_at(m, u.label) matches Some(w) ==> window_at(n, u.label) is Some && turns_into(
            spawn,
            w,
            u,
            window_at(n, u.label)->0,
        ),
{
    let i = window_index(m, u.label);
    let ls = labels_of(m.windows);
    lemma_rank(ls, u.label);
    if is_live(m, u.label) && !changes_nothing(m.windows[i].registry, u) {
        let (v, d) = choose|v: RegistryView, d: InitDtoView|
            {
                &&& updating(spawn, m.windows[i].registry, u, v)
                &&& is_snapshot(
                    d,
                    settled(recoloured(m, i, u.colour), i, v).windows[i],
                    known_of(m.presence, m.windows[i].label),
                    c,
                    None,
                )
                &&& n == #[trigger] updated(m, i, u.colour, v, d)
            };
        let x = n.windows[i];
        assert(ls[i] == m.windows[i].label);
        assert(n.windows =~= m.windows.update(i, x));
        lemma_replaced_at(m, n, i, x, label);
        lemma_replaced_at(m, n, i, x, u.label);
        assert(updating(spawn, m.windows[i].registry, u, v));
    }
}

/// An operation touches no window but its own.
proof fn lemma_op_frame<F: Fn(&Ask) -> Outcome>(
    spawn: &F,
    m: ManagerView,
    op: WindowOpView,
    c: ConfigView,
    n: ManagerView,
    label: Seq<char>,
)
    requires
        in_order(m),
        op_applies(spawn, m, op, c, n),
        label != op_label(op),
    ensures
        window_at(n, label) == window_at(m, label),
{
    match op {
        WindowOpView::Open(s) => {
            let w = choose|w: WindowStateView|
                #[trigger] builds(spawn, s, w) && n == opened(m, s, w);
            lemma_opened_at(m, s, w, label);
        },
        WindowOpView::Close(l) => {
            lemma_closed_at(m, l, label);
        },
        WindowOpView::Update(u) => {
            lemma_updated_at(spawn, m, u, c, n, label);
        },
    }
}

/// Operations that are all about other windows leave a window as it is.
proof fn lemma_run_frame<F: Fn(&Ask) -> Outcome>(
    spawn: &F,
    ms: Seq<ManagerView>,
    ops: Seq<WindowOpView>,
    c: ConfigView,
    a: int,
    b: int,
    label: Seq<char>,
)
    requires
        operations(spawn, ms, ops, c),
        in_order(ms[0]),
        0 <= a <= b <= ops.len(),
        forall|j: int| a <= j < b ==> op_label(#[trigger] ops[j]) != label,
    ensures
        window_at(ms[b], label) == window_at(ms[a], label),
    decreases b - a,
{
    if a < b {
        lemma_run_frame(spawn, ms, ops, c, a, b - 1, label);
        lemma_ops_keep_order(spawn, ms, ops, c, b - 1);
        assert(op_applies(spawn, ms[b - 1], ops[b - 1], c, ms[b]));
        lemma_op_frame(spawn, ms[b - 1], ops[b - 1], c, ms[b], label);
    }
}

/// Whether every title that has a label has one of its own.
spec fn apart(names: Seq<(Seq<char>, Seq<char>)>) -> bool {
    forall|t: Seq<char>, u: Seq<char>|
        #![trigger label_of(names, t), label_of(names, u)]
        t != u && label_of(names, t) is Some ==> label_of(names, t) != label_of(names, u)
}

proof fn lemma_label_of(pairs: Seq<(Seq<char>, Seq<char>)>, title: Seq<char>)
    ensures
        label_of(pairs, title) matches Some(l) ==> pairs.contains((title, l)),
        forall|l: Seq<char>| #[trigger]
            pairs.contains((title, l)) ==> label_of(pairs, title) is Some,
    decreases pairs.len(),
{
    if pairs.len() > 0 {
        let rest = pairs.skip(1);
        lemma_label_of(rest, title);
        if pairs[0].0 == title {
            assert(pairs[0] == (title, pairs[0].1));
        } else {
            if label_of(rest, title) is Some {
                let l = label_of(rest, title)->0;
                let k = choose|k: int| 0 <= k < rest.len() && rest[k] == (title, l);
                assert(pairs[k + 1] == (title, l));
            }
            assert forall|l: Seq<char>| #[trigger] pairs.contains((title, l)) implies label_of(
                pairs,
                title,
            ) is Some by {
                let k = choose|k: int| 0 <= k < pairs.len() && pairs[k] == (title, l);
                assert(rest[k - 1] == (title, l));
                assert(rest.contains((title, l)));
            }
        }
    }
}

proof fn lemma_label_of_push(
    pairs: Seq<(Seq<char>, Seq<char>)>,
    p: (Seq<char>, Seq<char>),
    title: Seq<char>,
)
    ensures
        label_of(pairs.push(p), title) == (match label_of(pairs, title) {
            Some(l) => Some(l),
            None => if p.0 == title {
                Some(p.1)
            } else {
                None
            },
        }),
    decreases pairs.len(),
{
    let all = pairs.push(p);
    if pairs.len() > 0 {
        assert(all.skip(1) =~= pairs.skip(1).push(p));
        lemma_label_of_push(pairs.skip(1), p, title);
    } else {
        assert(all.skip(1) =~= Seq::empty());
        assert(label_of(all.skip(1), title) is None);
    }
}

proof fn lemma_without_label(
    pairs: Seq<(Seq<char>, Seq<char>)>,
    label: Seq<char>,
    title: Seq<char>,
)
    ensures
        label_of(pairs, title) != Some(label) ==> label_of(without_label(pairs, label), title)
            == label_of(pairs, title),
        forall|p: (Seq<char>, Seq<char>)| #[trigger]
            without_label(pairs, label).contains(p) ==> pairs.contains(p) && p.1 != label,
    decreases pairs.len(),
{
    if pairs.len() > 0 {
        let rest = pairs.drop_last();
        let last = pairs.last();
        lemma_without_label(rest, label, title);
        assert(rest.push(last) =~= pairs);
        lemma_label_of_push(rest, last, title);
        let before = without_label(rest, label);
        let after = without_label(pairs, label);
        lemma_label_of_push(before, last, title);
        assert forall|p: (Seq<char>, Seq<char>)| #[trigger] after.contains(p) implies pairs.contains(
            p,
        ) && p.1 != label by {
            let k = choose|k: int| 0 <= k < after.len() && after[k] == p;
            if k < before.len() {
                assert(before.contains(p));
                let j = choose|j: int| 0 <= j < rest.len() && rest[j] == p;
                assert(pairs[j] == p);
            } else {
                assert(pairs[pairs.len() - 1] == p);
            }
        }
    }
}

proof fn lemma_without_title(
    pairs: Seq<(Seq<char>, Seq<char>)>,
    gone: Seq<char>,
    title: Seq<char>,
)
    ensures
        label_of(without_title(pairs, gone), title) == (if title == gone {
            None
        } else {
            label_of(pairs, title)
        }),
        forall|p: (Seq<char>, Seq<char>)| #[trigger]
            without_title(pairs, gone).contains(p) ==> pairs.contains(p) && p.0 != gone,
    decreases pairs.len(),
{
    if pairs.len() > 0 {
        let rest = pairs.drop_last();
        let last = pairs.last();
        lemma_without_title(rest, gone, title);
        assert(rest.push(last) =~= pairs);
        lemma_label_of_push(rest, last, title);
        let before = without_title(rest, gone);
        let after = without_title(pairs, gone);
        lemma_label_of_push(before, last, title);
        assert forall|p: (Seq<char>, Seq<char>)| #[trigger] after.contains(p) implies pairs.contains(
            p,
        ) && p.0 != gone by {
            let k = choose|k: int| 0 <= k < after.len() && after[k] == p;
            if k < before.len() {
                assert(before.contains(p));
                let j = choose|j: int| 0 <= j < rest.len() && rest[j] == p;
                assert(pairs[j] == p);
            } else {
                assert(pairs[pairs.len() - 1] == p);
            }
        }
    }
}

/// Whether the names agree with the windows: every live window is found by its
/// title, and every name is that of a live window.
pub open spec fn names_agree(m: ManagerView) -> bool {
    &&& forall|i: int|
        0 <= i < m.windows.len() ==> label_of(m.names, (#[trigger] m.windows[i]).title) == Some(
            m.windows[i].label,
        )
    &&& forall|p: (Seq<char>, Seq<char>)| #[trigger]
        m.names.contains(p) ==> window_at(m, p.1) is Some && window_at(m, p.1)->0.title == p.0
}

/// Whether a live window is titled `title`.
pub open spec fn live_titled(m: ManagerView, title: Seq<char>) -> bool {
    exists|i: int| 0 <= i < m.windows.len() && (#[trigger] m.windows[i]).title == title
}

proof fn lemma_names_apart(m: ManagerView)
    requires
        names_agree(m),
    ensures
        apart(m.names),
        forall|t: Seq<char>|
            #![trigger label_of(m.names, t)]
            label_of(m.names, t) matches Some(l) ==> window_at(m, l) is Some && window_at(
                m,
                l,
            )->0.title == t,
{
    assert forall|t: Seq<char>|
        #![trigger label_of(m.names, t)]
        label_of(m.names, t) is Some implies window_at(m, label_of(m.names, t)->0) is Some
        && window_at(m, label_of(m.names, t)->0)->0.title == t by {
        lemma_label_of(m.names, t);
        assert(m.names.contains((t, label_of(m.names, t)->0)));
    }
}

proof fn lemma_opened_names(m: ManagerView, s: WindowSpecView, w: WindowStateView)
    requires
        in_order(m),
        names_agree(m),
        w.label == s.label,
        w.title == s.title,
        !is_live(m, s.label),
        !live_titled(m, s.title),
    ensures
        names_agree(opened(m, s, w)),
{
    let n = opened(m, s, w);
    let q = kept_as(w);
    let base = without_title(m.names, s.title);
    let p0 = (s.title, s.label);
    lemma_rank(labels_of(m.windows), s.label);
    assert(n.windows == m.windows.push(q));
    assert forall|i: int| 0 <= i < n.windows.len() implies label_of(
        n.names,
        (#[trigger] n.windows[i]).title,
    ) == Some(n.windows[i].label) by {
        let t = n.windows[i].title;
        lemma_without_title(m.names, s.title, t);
        lemma_label_of_push(base, p0, t);
        if i < m.windows.len() {
            assert(m.windows[i].title == t);
        }
    }
    assert forall|p: (Seq<char>, Seq<char>)| #[trigger] n.names.contains(p) implies window_at(
        n,
        p.1,
    ) is Some && window_at(n, p.1)->0.title == p.0 by {
        let k = choose|k: int| 0 <= k < n.names.len() && n.names[k] == p;
        lemma_opened_at(m, s, w, p.1);
        if k < base.len() {
            lemma_without_title(m.names, s.title, p.0);
            assert(base.contains(p));
            assert(m.names.contains(p));
        }
    }
}

proof fn lemma_closed_names(m: ManagerView, gone: Seq<char>)
    requires
        in_order(m),
        names_agree(m),
    ensures
        names_agree(window_closed(m, gone)),
{
    let n = window_closed(m, gone);
    let ls = labels_of(m.windows);
    lemma_rank(ls, gone);
    if is_live(m, gone) {
        let g = window_index(m, gone);
        assert forall|i: int| 0 <= i < n.windows.len() implies label_of(
            n.names,
            (#[trigger] n.windows[i]).title,
        ) == Some(n.windows[i].label) by {
            let k = if i < g {
                i
            } else {
                i + 1
            };
            assert(n.windows[i] == m.windows[k]);
            assert(ls[k] != ls[g]);
            lemma_without_label(m.names, gone, m.windows[k].title);
        }
        assert forall|p: (Seq<char>, Seq<char>)| #[trigger] n.names.contains(p) implies window_at(
            n,
            p.1,
        ) is Some && window_at(n, p.1)->0.title == p.0 by {
            lemma_without_label(m.names, gone, p.0);
            lemma_closed_at(m, gone, p.1);
            assert(m.names.contains(p));
        }
    }
}

proof fn lemma_updated_names<F: Fn(&Ask) -> Outcome>(
    spawn: &F,
    m: ManagerView,
    u: TabUpdateView,
    c: ConfigView,
    n: ManagerView,
)
    requires
        in_order(m),
        in_order(n),
        names_agree(m),
        update_applies(spawn, m, u, c, n),
    ensures
        names_agree(n),
{
    lemma_updated_at(spawn, m, u, c, n, u.label);
    lemma_window_found(m, u.label);
    assert forall|l: Seq<char>| (#[trigger] window_at(n, l)) is Some implies window_at(m, l) is Some
        && window_at(n, l)->0.title == window_at(m, l)->0.title by {
        lemma_updated_at(spawn, m, u, c, n, l);
    }
    assert forall|i: int| 0 <= i < n.windows.len() implies label_of(
        n.names,
        (#[trigger] n.windows[i]).title,
    ) == Some(n.windows[i].label) by {
        let l = n.windows[i].label;
        lemma_window_at(n, i);
        lemma_window_found(m, l);
        let w = window_at(m, l)->0;
        let k = choose|k: int| 0 <= k < m.windows.len() && m.windows[k] == w;
        assert(m.windows[k].title == n.windows[i].title);
    }
    assert forall|p: (Seq<char>, Seq<char>)| #[trigger] n.names.contains(p) implies window_at(
        n,
        p.1,
    ) is Some && window_at(n, p.1)->0.title == p.0 by {
        assert(m.names.contains(p));
        lemma_updated_at(spawn, m, u, c, n, p.1);
    }
}

/// Whether `op` closes the window of one of `names`.
spec fn is_closing(
    names: Seq<Seq<char>>,
    labels: Seq<(Seq<char>, Seq<char>)>,
    op: WindowOpView,
) -> bool {
    exists|i: int|
        {
            &&& 0 <= i < names.len()
            &&& label_of(labels, #[trigger] names[i]) is Some
            &&& op == WindowOpView::Close(label_of(labels, names[i])->0)
        }
}

/// The closing operations: one for every name that has a label, each about a
/// window of its own.
proof fn lemma_close_ops(names: Seq<Seq<char>>, labels: Seq<(Seq<char>, Seq<char>)>)
    requires
        names.no_duplicates(),
        apart(labels),
    ensures
        forall|j: int|
            0 <= j < close_ops(names, labels).len() ==> is_closing(
                names,
                labels,
                #[trigger] close_ops(names, labels)[j],
            ),
        forall|i: int|
            0 <= i < names.len() && label_of(labels, #[trigger] names[i]) is Some ==> close_ops(
                names,
                labels,
            ).contains(WindowOpView::Close(label_of(labels, names[i])->0)),
        forall|j: int, k: int|
            0 <= j < k < close_ops(names, labels).len() ==> op_label(
                #[trigger] close_ops(names, labels)[j],
            ) != op_label(#[trigger] close_ops(names, labels)[k]),
    decreases names.len(),
{
    if names.len() > 0 {
        let rest = names.drop_last();
        let last = names.last();
        let n = rest.len() as int;
        assert(rest.no_duplicates()) by {
            assert forall|i: int, j: int| 0 <= i < n && 0 <= j < n && i != j implies rest[i]
                != rest[j] by {
                assert(names[i] != names[j]);
            }
        }
        lemma_close_ops(rest, labels);
        let before = close_ops(rest, labels);
        let after = close_ops(names, labels);
        assert forall|j: int| 0 <= j < after.len() implies is_closing(
            names,
            labels,
            #[trigger] after[j],
        ) by {
            if j < before.len() {
                assert(after[j] == before[j]);
                assert(is_closing(rest, labels, before[j]));
                let i = choose|i: int|
                    {
                        &&& 0 <= i < rest.len()
                        &&& label_of(labels, #[trigger] rest[i]) is Some
                        &&& before[j] == WindowOpView::Close(label_of(labels, rest[i])->0)
                    };
                assert(names[i] == rest[i]);
            } else {
                assert(names[n] == last);
            }
        }
        assert forall|i: int|
            0 <= i < names.len() && label_of(labels, #[trigger] names[i]) is Some implies after.contains(
            WindowOpView::Close(label_of(labels, names[i])->0),
        ) by {
            if i < n {
                assert(rest[i] == names[i]);
                let op = WindowOpView::Close(label_of(labels, rest[i])->0);
                assert(before.contains(op));
                let j = choose|j: int| 0 <= j < before.len() && before[j] == op;
                assert(after[j] == op);
            } else {
                assert(after[before.len() as int] == WindowOpView::Close(
                    label_of(labels, last)->0,
                ));
            }
        }
        assert forall|j: int, k: int| 0 <= j < k < after.len() implies op_label(
            #[trigger] after[j],
        ) != op_label(#[trigger] after[k]) by {
            assert(after[j] == before[j]);
            if k < before.len() {
                assert(after[k] == before[k]);
            } else {
                assert(is_closing(rest, labels, before[j]));
                let i = choose|i: int|
                    {
                        &&& 0 <= i < rest.len()
                        &&& label_of(labels, #[trigger] rest[i]) is Some
                        &&& before[j] == WindowOpView::Close(label_of(labels, rest[i])->0)
                    };
                assert(names[i] != names[n]);
            }
        }
    }
}

/// Whether changes are all about windows of their own.
spec fn distinct_updates(us: Seq<WindowUpdateView>) -> bool {
    forall|i: int, j: int|
        0 <= i < j < us.len() ==> (#[trigger] us[i]).title != (#[trigger] us[j]).title
}

/// Whether `op` carries one of the changes out.
spec fn is_updating(
    windows: Seq<WindowView>,
    us: Seq<WindowUpdateView>,
    labels: Seq<(Seq<char>, Seq<char>)>,
    op: WindowOpView,
) -> bool {
    exists|i: int|
        {
            &&& 0 <= i < us.len()
            &&& label_of(labels, (#[trigger] us[i]).title) is Some
            &&& op == WindowOpView::Update(
                update_op(windows, us[i], label_of(labels, us[i].title)->0),
            )
        }
}

/// The updating operations: one for every changed window that has a label,
/// each about a window of its own.
#[verifier::spinoff_prover]
proof fn lemma_update_ops(
    windows: Seq<WindowView>,
    us: Seq<WindowUpdateView>,
    labels: Seq<(Seq<char>, Seq<char>)>,
)
    requires
        distinct_updates(us),
        apart(labels),
    ensures
        forall|j: int|
            0 <= j < update_ops(windows, us, labels).len() ==> is_updating(
                windows,
                us,
                labels,
                #[trigger] update_ops(windows, us, labels)[j],
            ),
        forall|i: int|
            0 <= i < us.len() && label_of(labels, (#[trigger] us[i]).title) is Some ==> update_ops(
                windows,
                us,
                labels,
            ).contains(
                WindowOpView::Update(
                    update_op(windows, us[i], label_of(labels, us[i].title)->0),
                ),
            ),
        forall|j: int, k: int|
            0 <= j < k < update_ops(windows, us, labels).len() ==> op_label(
                #[trigger] update_ops(windows, us, labels)[j],
            ) != op_label(#[trigger] update_ops(windows, us, labels)[k]),
    decreases us.len(),
{
    if us.len() > 0 {
        let rest = us.drop_last();
        let last = us.last();
        let n = rest.len() as int;
        assert forall|i: int, j: int| 0 <= i < j < rest.len() implies (#[trigger] rest[i]).title
            != (#[trigger] rest[j]).title by {
            assert(us[i].title != us[j].title);
        }
        lemma_update_ops(windows, rest, labels);
        let before = update_ops(windows, rest, labels);
        let after = update_ops(windows, us, labels);
        assert forall|j: int| 0 <= j < after.len() implies is_updating(
            windows,
            us,
            labels,
            #[trigger] after[j],
        ) by {
            if j < before.len() {
                assert(after[j] == before[j]);
                assert(is_updating(windows, rest, labels, before[j]));
                let i = choose|i: int|
                    {
                        &&& 0 <= i < rest.len()
                        &&& label_of(labels, (#[trigger] rest[i]).title) is Some
                        &&& before[j] == WindowOpView::Update(
                            update_op(windows, rest[i], label_of(labels, rest[i].title)->0),
                        )
                    };
                assert(us[i] == rest[i]);
            } else {
                assert(us[n] == last);
            }
        }
        assert forall|i: int|
            0 <= i < us.len() && label_of(
                labels,
                (#[trigger] us[i]).title,
            ) is Some implies after.contains(
            WindowOpView::Update(update_op(windows, us[i], label_of(labels, us[i].title)->0)),
        ) by {
            let op = WindowOpView::Update(
                update_op(windows, us[i], label_of(labels, us[i].title)->0),
            );
            if i < n {
                assert(rest[i] == us[i]);
                assert(before.contains(op));
                let j = choose|j: int| 0 <= j < before.len() && before[j] == op;
                assert(after[j] == op);
            } else {
                assert(after[before.len() as int] == op);
            }
        }
        assert forall|j: int, k: int| 0 <= j < k < after.len() implies op_label(
            #[trigger] after[j],
        ) != op_label(#[trigger] after[k]) by {
            assert(after[j] == before[j]);
            if k < before.len() {
                assert(after[k] == before[k]);
            } else {
                assert(is_updating(windows, rest, labels, before[j]));
                let i = choose|i: int|
                    {
                        &&& 0 <= i < rest.len()
                        &&& label_of(labels, (#[trigger] rest[i]).title) is Some
                        &&& before[j] == WindowOpView::Update(
                            update_op(windows, rest[i], label_of(labels, rest[i].title)->0),
                        )
                    };
                assert(us[i].title != us[n].title);
            }
        }
    }
}

/// What is left of windows comes from them and is without repetitions.
proof fn lemma_left_windows(windows: Seq<WindowView>, old: Seq<WindowView>)
    requires
        distinct_titles(windows),
    ensures
        distinct_titles(windows_not_in(windows, old)),
        forall|i: int|
            0 <= i < windows_not_in(windows, old).len() ==> windows.contains(
                #[trigger] windows_not_in(windows, old)[i],
            ) && !has_title(old, windows_not_in(windows, old)[i].title),
    decreases windows.len(),
{
    if windows.len() > 0 {
        let rest = windows.drop_last();
        let last = windows.last();
        assert forall|i: int, j: int| 0 <= i < j < rest.len() implies (#[trigger] rest[i]).title
            != (#[trigger] rest[j]).title by {
            assert(windows[i].title != windows[j].title);
        }
        lemma_left_windows(rest, old);
        let before = windows_not_in(rest, old);
        let after = windows_not_in(windows, old);
        assert forall|i: int| 0 <= i < after.len() implies windows.contains(#[trigger] after[i])
            && !has_title(old, after[i].title) by {
            if i < before.len() {
                assert(after[i] == before[i]);
                assert(rest.contains(before[i]));
                let k = choose|k: int| 0 <= k < rest.len() && rest[k] == before[i];
                assert(windows[k] == before[i]);
            } else {
                assert(windows[windows.len() - 1] == last);
            }
        }
        assert forall|i: int, j: int| 0 <= i < j < after.len() implies (#[trigger] after[i]).title
            != (#[trigger] after[j]).title by {
            assert(after[i] == before[i]);
            if j < before.len() {
                assert(after[j] == before[j]);
            } else {
                assert(rest.contains(before[i]));
                let k = choose|k: int| 0 <= k < rest.len() && rest[k] == before[i];
                assert(windows[k].title != windows[windows.len() - 1].title);
            }
        }
    }
}

proof fn lemma_left_titles(windows: Seq<WindowView>, others: Seq<WindowView>)
    requires
        distinct_titles(windows),
    ensures
        titles_not_in(windows, others).no_duplicates(),
    decreases windows.len(),
{
    if windows.len() > 0 {
        let rest = windows.drop_last();
        let last = windows.last();
        assert forall|i: int, j: int| 0 <= i < j < rest.len() implies (#[trigger] rest[i]).title
            != (#[trigger] rest[j]).title by {
            assert(windows[i].title != windows[j].title);
        }
        lemma_left_titles(rest, others);
        let before = titles_not_in(rest, others);
        assert(!before.contains(last.title)) by {
            lemma_titles_not_in(rest, others, last.title);
            if before.contains(last.title) {
                let k = choose|k: int|
                    0 <= k < rest.len() && (#[trigger] rest[k]).title == last.title;
                assert(windows[k].title != windows[windows.len() - 1].title);
            }
        }
    }
}

/// Whether `u` is what turns one of the old windows into one of `windows`.
spec fn is_change(windows: Seq<WindowView>, old: Seq<WindowView>, u: WindowUpdateView) -> bool {
    exists|i: int|
        {
            &&& 0 <= i < windows.len()
            &&& first_titled(old, (#[trigger] windows[i]).title) is Some
            &&& u == changes(first_titled(old, windows[i].title)->0, windows[i])
        }
}

/// The changes of kept windows: one for every window that differs.
#[verifier::spinoff_prover]
proof fn lemma_updates(windows: Seq<WindowView>, old: Seq<WindowView>)
    requires
        distinct_titles(windows),
    ensures
        distinct_updates(updates(windows, old)),
        forall|j: int|
            0 <= j < updates(windows, old).len() ==> is_change(
                windows,
                old,
                #[trigger] updates(windows, old)[j],
            ),
        forall|i: int|
            0 <= i < windows.len() && first_titled(old, (#[trigger] windows[i]).title) is Some
                && differs(first_titled(old, windows[i].title)->0, windows[i]) ==> updates(
                windows,
                old,
            ).contains(changes(first_titled(old, windows[i].title)->0, windows[i])),
    decreases windows.len(),
{
    if windows.len() > 0 {
        let rest = windows.drop_last();
        let last = windows.last();
        let n = rest.len() as int;
        assert forall|i: int, j: int| 0 <= i < j < rest.len() implies (#[trigger] rest[i]).title
            != (#[trigger] rest[j]).title by {
            assert(windows[i].title != windows[j].title);
        }
        lemma_updates(rest, old);
        let before = updates(rest, old);
        let after = updates(windows, old);
        assert forall|j: int| 0 <= j < after.len() implies is_change(
            windows,
            old,
            #[trigger] after[j],
        ) by {
            if j < before.len() {
                assert(after[j] == before[j]);
                assert(is_change(rest, old, before[j]));
                let i = choose|i: int|
                    {
                        &&& 0 <= i < rest.len()
                        &&& first_titled(old, (#[trigger] rest[i]).title) is Some
                        &&& before[j] == changes(first_titled(old, rest[i].title)->0, rest[i])
                    };
                assert(windows[i] == rest[i]);
            } else {
                assert(windows[n] == last);
            }
        }
        assert forall|i: int|
            0 <= i < windows.len() && first_titled(old, (#[trigger] windows[i]).title) is Some
                && differs(
                first_titled(old, windows[i].title)->0,
                windows[i],
            ) implies after.contains(changes(first_titled(old, windows[i].title)->0, windows[i])) by {
            let u = changes(first_titled(old, windows[i].title)->0, windows[i]);
            if i < n {
                assert(rest[i] == windows[i]);
                assert(before.contains(u));
                let j = choose|j: int| 0 <= j < before.len() && before[j] == u;
                assert(after[j] == u);
            } else {
                assert(after[before.len() as int] == u);
            }
        }
        assert forall|i: int, j: int| 0 <= i < j < after.len() implies (#[trigger] after[i]).title
            != (#[trigger] after[j]).title by {
            assert(after[i] == before[i]);
            if j < before.len() {
                assert(after[j] == before[j]);
            } else {
                assert(is_change(rest, old, before[i]));
                let k = choose|k: int|
                    {
                        &&& 0 <= k < rest.len()
                        &&& first_titled(old, (#[trigger] rest[k]).title) is Some
                        &&& before[i] == changes(first_titled(old, rest[k].title)->0, rest[k])
                    };
                assert(windows[k].title != windows[n].title);
            }
        }
    }
}

/// Whether `s` is the spec of a configured window.
spec fn planned(c: ConfigView, s: WindowSpecView) -> bool {
    exists|x: WindowView| c.windows.contains(x) && s == #[trigger] spec_of(x, s.label)
}

/// Whether an operation of a reload is about what it should be: it opens a
/// window that is new under a free label, closes one that is gone, or changes
/// one that stays.
spec fn fits(op: WindowOpView, m: ManagerView, old: ConfigView, new: ConfigView) -> bool {
    match op {
        WindowOpView::Open(s) => {
            &&& !has_title(old.windows, s.title)
            &&& !is_live(m, s.label)
            &&& planned(new, s)
        },
        WindowOpView::Close(l) => exists|t: Seq<char>|
            {
                &&& #[trigger] label_of(m.names, t) == Some(l)
                &&& !has_title(new.windows, t)
            },
        WindowOpView::Update(u) => exists|o: WindowView, x: WindowView|
            {
                &&& new.windows.contains(x)
                &&& first_titled(old.windows, x.title) == Some(o)
                &&& label_of(m.names, x.title) == Some(u.label)
                &&& u == #[trigger] update_op(new.windows, changes(o, x), u.label)
            },
    }
}

/// The operations of a reload.
spec fn reload_ops(m: ManagerView, old: ConfigView, new: ConfigView) -> Seq<WindowOpView> {
    ops_of(difference(old, new), new, m.names, labels_of(m.windows))
}

#[verifier::spinoff_prover]
proof fn lemma_reload_ops(m: ManagerView, old: ConfigView, new: ConfigView)
    requires
        names_agree(m),
        well_formed(old),
        well_formed(new),
    ensures
        forall|j: int|
            0 <= j < reload_ops(m, old, new).len() ==> fits(
                #[trigger] reload_ops(m, old, new)[j],
                m,
                old,
                new,
            ),
        forall|j: int, k: int|
            0 <= j < k < reload_ops(m, old, new).len() ==> op_label(
                #[trigger] reload_ops(m, old, new)[j],
            ) != op_label(#[trigger] reload_ops(m, old, new)[k]),
        forall|j: int, k: int|
            0 <= j < k < reload_ops(m, old, new).len() && (#[trigger] reload_ops(
                m,
                old,
                new,
            )[k]) is Open ==> (#[trigger] reload_ops(m, old, new)[j]) is Open && reload_ops(
                m,
                old,
                new,
            )[j]->Open_0.title != reload_ops(m, old, new)[k]->Open_0.title,
        forall|t: Seq<char>| #[trigger]
            has_title(new.windows, t) && !has_title(old.windows, t) ==> exists|j: int|
                0 <= j < reload_ops(m, old, new).len() && (#[trigger] reload_ops(
                    m,
                    old,
                    new,
                )[j]) is Open && reload_ops(m, old, new)[j]->Open_0.title == t,
        forall|t: Seq<char>|
            (#[trigger] label_of(m.names, t)) is Some && has_title(old.windows, t) && !has_title(
                new.windows,
                t,
            ) ==> reload_ops(m, old, new).contains(
                WindowOpView::Close(label_of(m.names, t)->0),
            ),
        forall|x: WindowView| #[trigger]
            new.windows.contains(x) && first_titled(old.windows, x.title) is Some && label_of(
                m.names,
                x.title,
            ) is Some && differs(first_titled(old.windows, x.title)->0, x) ==> reload_ops(
                m,
                old,
                new,
            ).contains(
                WindowOpView::Update(
                    update_op(
                        new.windows,
                        changes(first_titled(old.windows, x.title)->0, x),
                        label_of(m.names, x.title)->0,
                    ),
                ),
            ),
{
    let d = difference(old, new);
    let ls = labels_of(m.windows);
    let taken = ls.push(HOME_LABEL@);
    let none = Seq::<(Seq<char>, Seq<char>)>::empty();
    let specs = labelled(d.open, none, taken).specs;
    let opens = open_ops(specs);
    let closes = close_ops(d.close, m.names);
    let ups = update_ops(new.windows, d.update, m.names);
    let ops = reload_ops(m, old, new);
    let a = opens.len() as int;
    let b = a + closes.len();
    assert(ops =~= opens + closes + ups);
    lemma_names_apart(m);
    lemma_left_windows(new.windows, old.windows);
    lemma_left_titles(old.windows, new.windows);
    lemma_updates(new.windows, old.windows);
    lemma_labelled(d.open, none, taken);
    lemma_close_ops(d.close, m.names);
    lemma_update_ops(new.windows, d.update, m.names);
    assert forall|j: int| 0 <= j < a implies {
        let s = specs[j];
        &&& #[trigger] ops[j] == WindowOpView::Open(s)
        &&& fits(ops[j], m, old, new)
    } by {
        let s = specs[j];
        let x = d.open[j];
        assert(ops[j] == opens[j]);
        assert(opens[j] == WindowOpView::Open(s));
        assert(s == spec_of(x, s.label));
        assert(new.windows.contains(x) && !has_title(old.windows, x.title));
        assert(planned(new, s));
        assert(!taken.contains(s.label));
        lemma_rank(ls, s.label);
        if ls.contains(s.label) {
            let k = choose|k: int| 0 <= k < ls.len() && ls[k] == s.label;
            assert(taken[k] == s.label);
        }
    }
    assert forall|j: int| a <= j < b implies (#[trigger] ops[j]) is Close && fits(
        ops[j],
        m,
        old,
        new,
    ) by {
        assert(ops[j] == closes[j - a]);
        assert(is_closing(d.close, m.names, closes[j - a]));
        let i = choose|i: int|
            {
                &&& 0 <= i < d.close.len()
                &&& label_of(m.names, #[trigger] d.close[i]) is Some
                &&& closes[j - a] == WindowOpView::Close(label_of(m.names, d.close[i])->0)
            };
        lemma_titles_not_in(old.windows, new.windows, d.close[i]);
        assert(d.close.contains(d.close[i]));
    }
    assert forall|j: int| b <= j < ops.len() implies (#[trigger] ops[j]) is Update && fits(
        ops[j],
        m,
        old,
        new,
    ) by {
        assert(ops[j] == ups[j - b]);
        assert(is_updating(new.windows, d.update, m.names, ups[j - b]));
        let i = choose|i: int|
            {
                &&& 0 <= i < d.update.len()
                &&& label_of(m.names, (#[trigger] d.update[i]).title) is Some
                &&& ups[j - b] == WindowOpView::Update(
                    update_op(
                        new.windows,
                        d.update[i],
                        label_of(m.names, d.update[i].title)->0,
                    ),
                )
            };
        assert(is_change(new.windows, old.windows, d.update[i]));
        let k = choose|k: int|
            {
                &&& 0 <= k < new.windows.len()
                &&& first_titled(old.windows, (#[trigger] new.windows[k]).title) is Some
                &&& d.update[i] == changes(
                    first_titled(old.windows, new.windows[k].title)->0,
                    new.windows[k],
                )
            };
        let x = new.windows[k];
        let o = first_titled(old.windows, x.title)->0;
        assert(new.windows.contains(x));
        let u = ops[j]->Update_0;
        assert(u == update_op(new.windows, changes(o, x), u.label));
    }
    assert forall|j: int, k: int| 0 <= j < k < ops.len() implies op_label(#[trigger] ops[j])
        != op_label(#[trigger] ops[k]) by {
        lemma_op_labels(m, old, new, ops[j], ops[k]);
        if k < a {
            assert(specs[j].label != specs[k].label);
        } else if j >= a && k < b {
            assert(ops[j] == closes[j - a] && ops[k] == closes[k - a]);
        } else if j >= b {
            assert(ops[j] == ups[j - b] && ops[k] == ups[k - b]);
        }
    }
    assert forall|j: int, k: int|
        0 <= j < k < ops.len() && (#[trigger] ops[k]) is Open implies (#[trigger] ops[j]) is Open
        && ops[j]->Open_0.title != ops[k]->Open_0.title by {
        assert(k < a);
        assert(d.open[j].title != d.open[k].title);
    }
    assert forall|t: Seq<char>| #[trigger] has_title(new.windows, t) && !has_title(
        old.windows,
        t,
    ) implies exists|j: int|
        0 <= j < ops.len() && (#[trigger] ops[j]) is Open && ops[j]->Open_0.title == t by {
        lemma_windows_not_in(new.windows, old.windows, t);
        let i = choose|i: int| 0 <= i < d.open.len() && (#[trigger] d.open[i]).title == t;
        assert(ops[i] == WindowOpView::Open(specs[i]));
    }
    assert forall|t: Seq<char>|
        (#[trigger] label_of(m.names, t)) is Some && has_title(old.windows, t) && !has_title(
            new.windows,
            t,
        ) implies ops.contains(WindowOpView::Close(label_of(m.names, t)->0)) by {
        lemma_titles_not_in(old.windows, new.windows, t);
        let i = choose|i: int| 0 <= i < d.close.len() && d.close[i] == t;
        let op = WindowOpView::Close(label_of(m.names, d.close[i])->0);
        assert(closes.contains(op));
        let j = choose|j: int| 0 <= j < closes.len() && closes[j] == op;
        assert(ops[a + j] == op);
    }
    assert forall|x: WindowView| #[trigger]
        new.windows.contains(x) && first_titled(old.windows, x.title) is Some && label_of(
            m.names,
            x.title,
        ) is Some && differs(first_titled(old.windows, x.title)->0, x) implies ops.contains(
        WindowOpView::Update(
            update_op(
                new.windows,
                changes(first_titled(old.windows, x.title)->0, x),
                label_of(m.names, x.title)->0,
            ),
        ),
    ) by {
        let u = changes(first_titled(old.windows, x.title)->0, x);
        let k = choose|k: int| 0 <= k < new.windows.len() && new.windows[k] == x;
        assert(d.update.contains(changes(first_titled(old.windows, new.windows[k].title)->0, x)));
        let i = choose|i: int| 0 <= i < d.update.len() && d.update[i] == u;
        let op = WindowOpView::Update(
            update_op(new.windows, d.update[i], label_of(m.names, d.update[i].title)->0),
        );
        assert(ups.contains(op));
        let j = choose|j: int| 0 <= j < ups.len() && ups[j] == op;
        assert(ops[b + j] == op);
    }
}

/// Operations of different kinds are about different windows.
proof fn lemma_op_labels(
    m: ManagerView,
    old: ConfigView,
    new: ConfigView,
    a: WindowOpView,
    b: WindowOpView,
)
    requires
        names_agree(m),
        fits(a, m, old, new),
        fits(b, m, old, new),
    ensures
        a is Open && !(b is Open) ==> op_label(a) != op_label(b),
        a is Close && b is Update ==> op_label(a) != op_label(b),
{
    lemma_names_apart(m);
    match b {
        WindowOpView::Open(_) => {},
        WindowOpView::Close(l) => {
            let t = choose|t: Seq<char>|
                {
                    &&& #[trigger] label_of(m.names, t) == Some(l)
                    &&& !has_title(new.windows, t)
                };
            assert(window_at(m, l) is Some);
        },
        WindowOpView::Update(u) => {
            let (o, x) = choose|o: WindowView, x: WindowView|
                {
                    &&& new.windows.contains(x)
                    &&& first_titled(old.windows, x.title) == Some(o)
                    &&& label_of(m.names, x.title) == Some(u.label)
                    &&& u == #[trigger] update_op(new.windows, changes(o, x), u.label)
                };
            assert(window_at(m, u.label) is Some);
            if a is Close {
                let l = a->Close_0;
                let t = choose|t: Seq<char>|
                    {
                        &&& #[trigger] label_of(m.names, t) == Some(l)
                        &&& !has_title(new.windows, t)
                    };
                let k = choose|k: int| 0 <= k < new.windows.len() && new.windows[k] == x;
                assert(new.windows[k].title == x.title);
                assert(t != x.title);
            }
        },
    }
}

/// Whether a live window shows what a configuration lists under its title: in
/// its colour, with its tabs in line, and each of them called, placed, watched
/// and ended as it says.
pub open spec fn window_mirrors(w: WindowStateView, c: ConfigView) -> bool {
    match first_titled(c.windows, w.title) {
        Some(x) => {
            &&& w.colour == hex_text(x.colour)
            &&& in_line(w.registry.tabs, keys_of(x.tabs))
            &&& told(w.registry.tabs, x.tabs)
        },
        None => false,
    }
}

/// Whether everything on screen shows what a configuration lists.
pub open spec fn mirrors(m: ManagerView, c: ConfigView) -> bool {
    &&& in_order(m)
    &&& names_agree(m)
    &&& forall|i: int| 0 <= i < m.windows.len() ==> window_mirrors(#[trigger] m.windows[i], c)
}

/// A built window shows what its configuration lists.
proof fn lemma_built_mirrors<F: Fn(&Ask) -> Outcome>(
    spawn: &F,
    c: ConfigView,
    x: WindowView,
    label: Seq<char>,
    w: WindowStateView,
)
    requires
        well_formed(c),
        c.windows.contains(x),
        builds(spawn, spec_of(x, label), w),
    ensures
        w.label == label,
        w.title == x.title,
        window_mirrors(kept_as(w), c),
{
    let s = spec_of(x, label);
    law_built_windows_have_all_their_tabs(spawn, s, w);
    lemma_plan_ids(x.roots, x.tabs);
    let k = choose|k: int| 0 <= k < c.windows.len() && c.windows[k] == x;
    assert(distinct_keys(c.windows[k].tabs));
    lemma_distinct_keys(x.tabs);
    lemma_window_finds_itself(c.windows, k);
    let tabs = w.registry.tabs;
    assert(tab_ids(tabs).len() == tabs.len());
    assert(keys_of(x.tabs).len() == tabs.len());
    assert(tab_ids(tabs).take(tabs.len() as int) =~= tab_ids(tabs));
    assert forall|k: int, j: int|
        0 <= k < tabs.len() && 0 <= j < x.tabs.len() && (#[trigger] tabs[k]).id == (
        #[trigger] x.tabs[j]).key && !(tabs[k].primary.slot is Detached) implies carries(
        tabs[k],
        x.tabs[j],
    ) by {
        assert(as_planned(tabs[k], s.tabs[k]));
        assert(s.tabs[k] == plan_of(x.roots, x.tabs[k]));
        assert(x.tabs[k].key == x.tabs[j].key);
    }
}

/// A window that is built for a configured one has its title and its colour,
/// and all its tabs in order. Each is called, stands, is watched and ended, and
/// runs as it is configured, and the first is shown.
pub proof fn law_a_built_window_runs_its_config<F: Fn(&Ask) -> Outcome>(
    spawn: &F,
    x: WindowView,
    label: Seq<char>,
    w: WindowStateView,
    k: int,
)
    requires
        builds(spawn, spec_of(x, label), w),
        0 <= k < x.tabs.len(),
    ensures
        w.label == label,
        w.title == x.title,
        w.colour == hex_text(x.colour),
        w.registry.tabs.len() == x.tabs.len(),
        w.registry.tabs[k].id == x.tabs[k].key,
        carries(w.registry.tabs[k], x.tabs[k]),
        runs_as(w.registry.tabs[k], x.tabs[k]),
        !(w.registry.tabs[k].primary.slot is Detached),
        w.registry.active == Some(x.tabs[0].key),
{
    let s = spec_of(x, label);
    law_built_windows_have_all_their_tabs(spawn, s, w);
    lemma_plan_ids(x.roots, x.tabs);
    let tabs = w.registry.tabs;
    assert(tab_ids(tabs).len() == tabs.len());
    assert(keys_of(x.tabs).len() == tabs.len());
    assert(as_planned(tabs[k], s.tabs[k]));
    assert(s.tabs[k] == plan_of(x.roots, x.tabs[k]));
    assert(s.tabs[0] == plan_of(x.roots, x.tabs[0]));
}

/// An update that turns a window into another brings it in line.
proof fn lemma_turned_mirrors<F: Fn(&Ask) -> Outcome>(
    spawn: &F,
    old: ConfigView,
    new: ConfigView,
    o: WindowView,
    x: WindowView,
    w: WindowStateView,
    label: Seq<char>,
    z: WindowStateView,
)
    requires
        well_formed(old),
        well_formed(new),
        new.windows.contains(x),
        first_titled(old.windows, x.title) == Some(o),
        w.title == x.title,
        window_mirrors(w, old),
        turns_into(spawn, w, update_op(new.windows, changes(o, x), label), z),
    ensures
        z.title == w.title,
        window_mirrors(z, new),
{
    let u = update_op(new.windows, changes(o, x), label);
    let k = choose|k: int| 0 <= k < new.windows.len() && new.windows[k] == x;
    lemma_window_finds_itself(new.windows, k);
    assert(distinct_keys(new.windows[k].tabs));
    lemma_first_titled(old.windows, x.title);
    let q = choose|q: int| 0 <= q < old.windows.len() && old.windows[q] == o;
    assert(distinct_keys(old.windows[q].tabs));
    if changes_nothing(w.registry, u) {
        let tabs = w.registry.tabs;
        assert(u.order == tab_ids(tabs));
        assert(tab_ids(tabs).len() == tabs.len());
        assert(tab_ids(tabs).take(tabs.len() as int) =~= tab_ids(tabs));
        lemma_changed_meta(x.tabs, o.tabs);
        assert forall|k: int, j: int|
            0 <= k < tabs.len() && 0 <= j < x.tabs.len() && (#[trigger] tabs[k]).id == (
            #[trigger] x.tabs[j]).key && !(tabs[k].primary.slot is Detached) implies carries(
            tabs[k],
            x.tabs[j],
        ) by {
            let key = x.tabs[j].key;
            lemma_first_keyed(o.tabs, key);
            law_tabs_are_accounted_for(o, x, key);
            assert(has_key(x.tabs, key));
            assert(changes(o, x).add_tabs.len() == u.add_tabs.len());
            assert(has_key(o.tabs, key));
            let was = first_keyed(o.tabs, key)->0;
            let i = choose|i: int| 0 <= i < o.tabs.len() && o.tabs[i] == was;
            assert(o.tabs[i].key == tabs[k].id);
            assert(carries(tabs[k], o.tabs[i]));
            assert(changed_meta(x.tabs, o.tabs).len() == u.set_meta.len());
            assert(meta_of(was) == meta_of(x.tabs[j]));
            assert(meta_of(was).title == meta_of(x.tabs[j]).title);
        }
    } else {
        let v = choose|v: RegistryView|
            {
                &&& #[trigger] updating(spawn, w.registry, u, v)
                &&& z == (WindowStateView {
                    colour: match u.colour {
                        Some(c) => c,
                        None => w.colour,
                    },
                    registry: RegistryView { outbox: Seq::empty(), ..v },
                    ..w
                })
            };
        law_an_update_brings_a_window_in_line(spawn, w.registry, o, x, new.windows, label, v);
        law_an_update_tells_every_tab(spawn, w.registry, o, x, new.windows, label, v);
    }
}

/// What becomes of the window that an operation is about.
#[verifier::spinoff_prover]
proof fn lemma_touched_window<F: Fn(&Ask) -> Outcome>(
    spawn: &F,
    ms: Seq<ManagerView>,
    old: ConfigView,
    new: ConfigView,
    j: int,
)
    requires
        well_formed(old),
        well_formed(new),
        mirrors(ms[0], old),
        operations(spawn, ms, reload_ops(ms[0], old, new), new),
        0 <= j < reload_ops(ms[0], old, new).len(),
    ensures
        became(ms[0], old, new, op_label(reload_ops(ms[0], old, new)[j]), ms.last()),
        reload_ops(ms[0], old, new)[j] matches WindowOpView::Open(s) ==> window_at(
            ms.last(),
            s.label,
        ) is Some && window_at(ms.last(), s.label)->0.title == s.title,
{
    let m = ms[0];
    let ops = reload_ops(m, old, new);
    let n = ops.len() as int;
    let label = op_label(ops[j]);
    lemma_reload_ops(m, old, new);
    assert forall|k: int| 0 <= k < n && k != j implies op_label(#[trigger] ops[k]) != label by {
        if k < j {
            assert(op_label(ops[k]) != op_label(ops[j]));
        } else {
            assert(op_label(ops[j]) != op_label(ops[k]));
        }
    }
    lemma_run_frame(spawn, ms, ops, new, 0, j, label);
    lemma_run_frame(spawn, ms, ops, new, j + 1, n, label);
    lemma_ops_keep_order(spawn, ms, ops, new, j);
    assert(op_applies(spawn, ms[j], ops[j], new, ms[j + 1]));
    assert(fits(ops[j], m, old, new));
    lemma_touched_once(spawn, m, old, new, ops[j], ms[j], ms[j + 1]);
}

/// What the operation about a window makes of it.
#[verifier::spinoff_prover]
proof fn lemma_touched_once<F: Fn(&Ask) -> Outcome>(
    spawn: &F,
    m: ManagerView,
    old: ConfigView,
    new: ConfigView,
    op: WindowOpView,
    a: ManagerView,
    b: ManagerView,
)
    requires
        well_formed(old),
        well_formed(new),
        mirrors(m, old),
        fits(op, m, old, new),
        in_order(a),
        window_at(a, op_label(op)) == window_at(m, op_label(op)),
        op_applies(spawn, a, op, new, b),
    ensures
        became(m, old, new, op_label(op), b),
        op matches WindowOpView::Open(s) ==> window_at(b, s.label) is Some && window_at(
            b,
            s.label,
        )->0.title == s.title,
{
    let label = op_label(op);
    lemma_names_apart(m);
    lemma_window_found(m, label);
    match op {
        WindowOpView::Open(s) => {
            let x = choose|x: WindowView|
                new.windows.contains(x) && s == #[trigger] spec_of(x, s.label);
            let w = choose|w: WindowStateView|
                #[trigger] builds(spawn, s, w) && b == opened(a, s, w);
            lemma_built_mirrors(spawn, new, x, s.label, w);
            lemma_opened_at(a, s, w, label);
        },
        WindowOpView::Close(l) => {
            let t = choose|t: Seq<char>|
                {
                    &&& #[trigger] label_of(m.names, t) == Some(l)
                    &&& !has_title(new.windows, t)
                };
            lemma_closed_at(a, l, label);
        },
        WindowOpView::Update(u) => {
            let (o, x) = choose|o: WindowView, x: WindowView|
                {
                    &&& new.windows.contains(x)
                    &&& first_titled(old.windows, x.title) == Some(o)
                    &&& label_of(m.names, x.title) == Some(u.label)
                    &&& u == #[trigger] update_op(new.windows, changes(o, x), u.label)
                };
            assert(label_of(m.names, x.title) == Some(label));
            let w = window_at(m, label)->0;
            let i = choose|i: int| 0 <= i < m.windows.len() && m.windows[i] == w;
            assert(window_mirrors(m.windows[i], old));
            lemma_updated_at(spawn, a, u, new, b, label);
            let z = window_at(b, label)->0;
            lemma_turned_mirrors(spawn, old, new, o, x, w, label, z);
        },
    }
}

/// Whether the window under `label` in `m` became what a reload makes of it.
spec fn became(
    m: ManagerView,
    old: ConfigView,
    new: ConfigView,
    label: Seq<char>,
    n: ManagerView,
) -> bool {
    &&& window_at(n, label) matches Some(z) ==> {
        &&& window_mirrors(z, new)
        &&& has_title(old.windows, z.title) ==> window_at(m, label) is Some && window_at(
            m,
            label,
        )->0.title == z.title
    }
    &&& window_at(m, label) matches Some(w) ==> has_title(new.windows, w.title) ==> window_at(
        n,
        label,
    ) is Some && window_at(n, label)->0.title == w.title
}

/// A window that no operation is about is in line already.
#[verifier::spinoff_prover]
proof fn lemma_untouched_window<F: Fn(&Ask) -> Outcome>(
    spawn: &F,
    ms: Seq<ManagerView>,
    old: ConfigView,
    new: ConfigView,
    label: Seq<char>,
)
    requires
        well_formed(old),
        well_formed(new),
        mirrors(ms[0], old),
        operations(spawn, ms, reload_ops(ms[0], old, new), new),
        forall|j: int|
            0 <= j < reload_ops(ms[0], old, new).len() ==> op_label(
                #[trigger] reload_ops(ms[0], old, new)[j],
            ) != label,
    ensures
        became(ms[0], old, new, label, ms.last()),
{
    let m = ms[0];
    let ops = reload_ops(m, old, new);
    let n = ops.len() as int;
    lemma_reload_ops(m, old, new);
    lemma_window_found(m, label);
    lemma_run_frame(spawn, ms, ops, new, 0, n, label);
    match window_at(m, label) {
        None => {},
        Some(w) => {
            let i = choose|i: int| 0 <= i < m.windows.len() && m.windows[i] == w;
            assert(window_mirrors(m.windows[i], old));
            assert(label_of(m.names, m.windows[i].title) == Some(label));
            let t = w.title;
            lemma_first_titled(old.windows, t);
            lemma_first_titled(new.windows, t);
            if !has_title(new.windows, t) {
                let op = WindowOpView::Close(label_of(m.names, t)->0);
                assert(ops.contains(op));
                let k = choose|k: int| 0 <= k < n && ops[k] == op;
                assert(op_label(ops[k]) == label);
            }
            let o = first_titled(old.windows, t)->0;
            let x = first_titled(new.windows, t)->0;
            let q = choose|q: int| 0 <= q < old.windows.len() && old.windows[q] == o;
            let p = choose|p: int| 0 <= p < new.windows.len() && new.windows[p] == x;
            assert(distinct_keys(old.windows[q].tabs));
            assert(distinct_keys(new.windows[p].tabs));
            if differs(o, x) {
                assert(new.windows.contains(x));
                let op = WindowOpView::Update(
                    update_op(new.windows, changes(o, x), label_of(m.names, x.title)->0),
                );
                assert(ops.contains(op));
                let k = choose|k: int| 0 <= k < n && ops[k] == op;
                assert(op_label(ops[k]) == label);
            }
            law_no_update_means_unchanged(o, x);
            lemma_still_told(w.registry.tabs, o.tabs, x.tabs);
        },
    }
}

/// What was told of tabs is told of others with the same identities and
/// metadata.
proof fn lemma_still_told(tabs: Seq<TabEntryView>, old: Seq<TabView>, new: Seq<TabView>)
    requires
        told(tabs, old),
        keys_of(old) == keys_of(new),
        forall|i: int| 0 <= i < new.len() ==> meta_of(#[trigger] new[i]) == meta_of(old[i]),
    ensures
        told(tabs, new),
{
    assert(keys_of(old).len() == old.len() && keys_of(new).len() == new.len());
    assert forall|k: int, j: int|
        0 <= k < tabs.len() && 0 <= j < new.len() && (#[trigger] tabs[k]).id == (
        #[trigger] new[j]).key && !(tabs[k].primary.slot is Detached) implies carries(
        tabs[k],
        new[j],
    ) by {
        assert(keys_of(old)[j] == keys_of(new)[j]);
        assert(old[j].key == tabs[k].id);
        assert(carries(tabs[k], old[j]));
        assert(meta_of(new[j]).title == meta_of(old[j]).title);
    }
}

/// What becomes of the window under a label.
proof fn lemma_final_window<F: Fn(&Ask) -> Outcome>(
    spawn: &F,
    ms: Seq<ManagerView>,
    old: ConfigView,
    new: ConfigView,
    label: Seq<char>,
)
    requires
        well_formed(old),
        well_formed(new),
        mirrors(ms[0], old),
        operations(spawn, ms, reload_ops(ms[0], old, new), new),
    ensures
        became(ms[0], old, new, label, ms.last()),
{
    let ops = reload_ops(ms[0], old, new);
    if exists|j: int| 0 <= j < ops.len() && op_label(#[trigger] ops[j]) == label {
        let j = choose|j: int| 0 <= j < ops.len() && op_label(#[trigger] ops[j]) == label;
        lemma_touched_window(spawn, ms, old, new, j);
    } else {
        lemma_untouched_window(spawn, ms, old, new, label);
    }
}

/// The names agree with the windows all along the way.
#[verifier::spinoff_prover]
proof fn lemma_run_names<F: Fn(&Ask) -> Outcome>(
    spawn: &F,
    ms: Seq<ManagerView>,
    old: ConfigView,
    new: ConfigView,
    k: int,
)
    requires
        well_formed(old),
        well_formed(new),
        mirrors(ms[0], old),
        operations(spawn, ms, reload_ops(ms[0], old, new), new),
        0 <= k <= reload_ops(ms[0], old, new).len(),
    ensures
        names_agree(ms[k]),
    decreases k,
{
    let m = ms[0];
    let ops = reload_ops(m, old, new);
    if k > 0 {
        lemma_run_names(spawn, ms, old, new, k - 1);
        lemma_reload_ops(m, old, new);
        lemma_ops_keep_order(spawn, ms, ops, new, k - 1);
        lemma_ops_keep_order(spawn, ms, ops, new, k);
        let here = ms[k - 1];
        assert(op_applies(spawn, here, ops[k - 1], new, ms[k]));
        assert(fits(ops[k - 1], m, old, new));
        match ops[k - 1] {
            WindowOpView::Open(s) => {
                let w = choose|w: WindowStateView|
                    #[trigger] builds(spawn, s, w) && ms[k] == opened(here, s, w);
                assert(w.label == s.label && w.title == s.title) by {
                    law_built_windows_have_all_their_tabs(spawn, s, w);
                }
                assert forall|j: int| 0 <= j < k - 1 implies op_label(#[trigger] ops[j])
                    != s.label by {
                    assert(op_label(ops[j]) != op_label(ops[k - 1]));
                }
                lemma_run_frame(spawn, ms, ops, new, 0, k - 1, s.label);
                if live_titled(here, s.title) {
                    let i = choose|i: int|
                        0 <= i < here.windows.len() && (#[trigger] here.windows[i]).title
                            == s.title;
                    lemma_no_such_title(spawn, ms, old, new, k - 1, i);
                }
                lemma_opened_names(here, s, w);
            },
            WindowOpView::Close(l) => {
                lemma_closed_names(here, l);
            },
            WindowOpView::Update(u) => {
                lemma_updated_names(spawn, here, u, new, ms[k]);
            },
        }
    }
}

/// While windows open, no live one has the title of the one that opens next.
proof fn lemma_no_such_title<F: Fn(&Ask) -> Outcome>(
    spawn: &F,
    ms: Seq<ManagerView>,
    old: ConfigView,
    new: ConfigView,
    k: int,
    i: int,
)
    requires
        well_formed(old),
        well_formed(new),
        mirrors(ms[0], old),
        operations(spawn, ms, reload_ops(ms[0], old, new), new),
        0 <= k < reload_ops(ms[0], old, new).len(),
        reload_ops(ms[0], old, new)[k] is Open,
        0 <= i < ms[k].windows.len(),
    ensures
        ms[k].windows[i].title != reload_ops(ms[0], old, new)[k]->Open_0.title,
{
    let m = ms[0];
    let ops = reload_ops(m, old, new);
    let here = ms[k];
    let s = ops[k]->Open_0;
    let x = here.windows[i];
    let l = x.label;
    lemma_reload_ops(m, old, new);
    lemma_ops_keep_order(spawn, ms, ops, new, k);
    assert(fits(ops[k], m, old, new));
    lemma_window_at(here, i);
    if exists|j: int| 0 <= j < k && op_label(#[trigger] ops[j]) == l {
        let j = choose|j: int| 0 <= j < k && op_label(#[trigger] ops[j]) == l;
        assert(ops[j] is Open && ops[j]->Open_0.title != s.title);
        assert forall|q: int| j + 1 <= q < k implies op_label(#[trigger] ops[q]) != l by {
            assert(op_label(ops[j]) != op_label(ops[q]));
        }
        lemma_run_frame(spawn, ms, ops, new, j + 1, k, l);
        lemma_ops_keep_order(spawn, ms, ops, new, j);
        let sj = ops[j]->Open_0;
        assert(op_applies(spawn, ms[j], ops[j], new, ms[j + 1]));
        let w = choose|w: WindowStateView|
            #[trigger] builds(spawn, sj, w) && ms[j + 1] == opened(ms[j], sj, w);
        assert(w.label == sj.label && w.title == sj.title) by {
            law_built_windows_have_all_their_tabs(spawn, sj, w);
        }
        lemma_opened_at(ms[j], sj, w, l);
    } else {
        lemma_run_frame(spawn, ms, ops, new, 0, k, l);
        lemma_window_found(m, l);
        let q = choose|q: int| 0 <= q < m.windows.len() && m.windows[q] == x;
        assert(window_mirrors(m.windows[q], old));
        lemma_first_titled(old.windows, x.title);
    }
}

/// A reload brings everything on screen in line with the new configuration,
/// however the spawns come out: every live window is configured and shows its
/// tabs in their order and its colour; windows that are no longer configured
/// are gone, windows that were not configured before are open, and of the
/// others exactly those are that were.
pub proof fn law_a_reload_brings_everything_in_line<
    F: Fn(&Ask) -> Outcome,
>(spawn: &F, m: ManagerView, old: ConfigView, new: ConfigView, n: ManagerView)
    requires
        well_formed(old),
        well_formed(new),
        mirrors(m, old),
        applying(spawn, m, difference(old, new), new, n),
    ensures
        mirrors(n, new),
        forall|t: Seq<char>| #[trigger]
            live_titled(n, t) <==> has_title(new.windows, t) && (live_titled(m, t) || !has_title(
                old.windows,
                t,
            )),
{
    let ops = reload_ops(m, old, new);
    let ms = choose|ms: Seq<ManagerView>|
        #[trigger] operations(spawn, ms, ops, new) && ms[0] == m && ms.last() == n;
    lemma_ops_keep_order(spawn, ms, ops, new, ops.len() as int);
    lemma_run_names(spawn, ms, old, new, ops.len() as int);
    lemma_reload_ops(m, old, new);
    assert forall|i: int| 0 <= i < n.windows.len() implies window_mirrors(
        #[trigger] n.windows[i],
        new,
    ) by {
        lemma_window_at(n, i);
        lemma_final_window(spawn, ms, old, new, n.windows[i].label);
    }
    assert forall|t: Seq<char>| #[trigger]
        live_titled(n, t) <==> has_title(new.windows, t) && (live_titled(m, t) || !has_title(
            old.windows,
            t,
        )) by {
        if live_titled(n, t) {
            let i = choose|i: int| 0 <= i < n.windows.len() && (#[trigger] n.windows[i]).title == t;
            let l = n.windows[i].label;
            lemma_window_at(n, i);
            lemma_final_window(spawn, ms, old, new, l);
            lemma_first_titled(new.windows, t);
            if has_title(old.windows, t) {
                lemma_window_found(m, l);
                let w = window_at(m, l)->0;
                let k = choose|k: int| 0 <= k < m.windows.len() && m.windows[k] == w;
                assert(m.windows[k].title == t);
            }
        }
        if has_title(new.windows, t) && live_titled(m, t) {
            let i = choose|i: int| 0 <= i < m.windows.len() && (#[trigger] m.windows[i]).title == t;
            let l = m.windows[i].label;
            lemma_window_at(m, i);
            lemma_final_window(spawn, ms, old, new, l);
            lemma_window_found(n, l);
            let z = window_at(n, l)->0;
            let k = choose|k: int| 0 <= k < n.windows.len() && n.windows[k] == z;
            assert(n.windows[k].title == t);
        }
        if has_title(new.windows, t) && !has_title(old.windows, t) {
            let j = choose|j: int|
                0 <= j < ops.len() && (#[trigger] ops[j]) is Open && ops[j]->Open_0.title == t;
            let l = ops[j]->Open_0.label;
            lemma_touched_window(spawn, ms, old, new, j);
            lemma_window_found(n, l);
            let z = window_at(n, l)->0;
            let k = choose|k: int| 0 <= k < n.windows.len() && n.windows[k] == z;
            assert(n.windows[k].title == t);
        }
    }
}

/// Opening a configured window that is not live keeps everything in line.
proof fn lemma_opened_mirrors<F: Fn(&Ask) -> Outcome>(
    spawn: &F,
    m: ManagerView,
    c: ConfigView,
    x: WindowView,
    label: Seq<char>,
    w: WindowStateView,
)
    requires
        well_formed(c),
        mirrors(m, c),
        c.windows.contains(x),
        builds(spawn, spec_of(x, label), w),
        !is_live(m, label),
        !live_titled(m, x.title),
    ensures
        mirrors(opened(m, spec_of(x, label), w), c),
        forall|t: Seq<char>| #[trigger]
            live_titled(opened(m, spec_of(x, label), w), t) <==> live_titled(m, t) || t == x.title,
{
    let s = spec_of(x, label);
    let n = opened(m, s, w);
    let q = kept_as(w);
    lemma_built_mirrors(spawn, c, x, label, w);
    law_opening_keeps_order(m, s, w);
    lemma_opened_names(m, s, w);
    lemma_rank(labels_of(m.windows), label);
    assert(n.windows == m.windows.push(q));
    assert forall|i: int| 0 <= i < n.windows.len() implies window_mirrors(
        #[trigger] n.windows[i],
        c,
    ) by {
        if i < m.windows.len() {
            assert(n.windows[i] == m.windows[i]);
        }
    }
    assert forall|t: Seq<char>| #[trigger]
        live_titled(n, t) <==> live_titled(m, t) || t == x.title by {
        if live_titled(n, t) {
            let i = choose|i: int| 0 <= i < n.windows.len() && (#[trigger] n.windows[i]).title == t;
            if i < m.windows.len() {
                assert(m.windows[i].title == t);
            }
        }
        if live_titled(m, t) {
            let i = choose|i: int| 0 <= i < m.windows.len() && (#[trigger] m.windows[i]).title == t;
            assert(n.windows[i].title == t);
        }
        if t == x.title {
            assert(n.windows[m.windows.len() as int].title == t);
        }
    }
}

/// Whether a window that opens on start is titled `title`.
pub open spec fn starts_titled(windows: Seq<WindowView>, title: Seq<char>) -> bool {
    exists|i: int|
        0 <= i < windows.len() && (#[trigger] windows[i]).title == title
            && windows[i].open_on_start
}

/// Whether `s` is the spec of one of `windows` that opens on start.
spec fn starts(windows: Seq<WindowView>, specs: Seq<WindowSpecView>, s: WindowSpecView) -> bool {
    exists|i: int|
        0 <= i < windows.len() && (#[trigger] windows[i]).open_on_start && specs[i] == s
}

/// What opens on start is configured, under labels and titles of their own.
proof fn lemma_starting(specs: Seq<WindowSpecView>, windows: Seq<WindowView>)
    requires
        specs.len() == windows.len(),
        distinct_titles(windows),
        forall|i: int|
            0 <= i < specs.len() ==> specs[i] == spec_of(
                windows[i],
                (#[trigger] specs[i]).label,
            ),
        forall|i: int, j: int|
            0 <= i < j < specs.len() ==> (#[trigger] specs[i]).label != (#[trigger] specs[j]).label,
    ensures
        forall|k: int|
            0 <= k < starting(specs).len() ==> starts(
                windows,
                specs,
                #[trigger] starting(specs)[k],
            ),
        forall|i: int|
            0 <= i < windows.len() && (#[trigger] windows[i]).open_on_start ==> starting(
                specs,
            ).contains(specs[i]),
        forall|j: int, k: int|
            0 <= j < k < starting(specs).len() ==> {
                &&& (#[trigger] starting(specs)[j]).label != (#[trigger] starting(specs)[k]).label
                &&& starting(specs)[j].title != starting(specs)[k].title
            },
    decreases specs.len(),
{
    if specs.len() > 0 {
        let rest = specs.drop_last();
        let others = windows.drop_last();
        let n = rest.len() as int;
        assert forall|i: int, j: int| 0 <= i < j < others.len() implies (
        #[trigger] others[i]).title != (#[trigger] others[j]).title by {
            assert(windows[i].title != windows[j].title);
        }
        assert forall|i: int, j: int| 0 <= i < j < rest.len() implies (#[trigger] rest[i]).label
            != (#[trigger] rest[j]).label by {
            assert(specs[i].label != specs[j].label);
        }
        assert forall|i: int| 0 <= i < rest.len() implies rest[i] == spec_of(
            others[i],
            (#[trigger] rest[i]).label,
        ) by {
            assert(specs[i] == spec_of(windows[i], specs[i].label));
        }
        lemma_starting(rest, others);
        let before = starting(rest);
        let after = starting(specs);
        assert(specs[n] == spec_of(windows[n], specs[n].label));
        assert forall|k: int| 0 <= k < after.len() implies starts(
            windows,
            specs,
            #[trigger] after[k],
        ) by {
            if k < before.len() {
                assert(starts(others, rest, before[k]));
                let i = choose|i: int|
                    0 <= i < others.len() && (#[trigger] others[i]).open_on_start && rest[i]
                        == before[k];
                assert(windows[i].open_on_start && specs[i] == after[k]);
            } else {
                assert(windows[n].open_on_start);
            }
        }
        assert forall|i: int|
            0 <= i < windows.len() && (#[trigger] windows[i]).open_on_start implies after.contains(
            specs[i],
        ) by {
            if i < n {
                assert(others[i].open_on_start);
                let k = choose|k: int| 0 <= k < before.len() && before[k] == rest[i];
                assert(after[k] == specs[i]);
            } else {
                assert(after[before.len() as int] == specs[i]);
            }
        }
        assert forall|j: int, k: int| 0 <= j < k < after.len() implies {
            &&& (#[trigger] after[j]).label != (#[trigger] after[k]).label
            &&& after[j].title != after[k].title
        } by {
            assert(after[j] == before[j]);
            if k < before.len() {
                assert(after[k] == before[k]);
            } else {
                assert(starts(others, rest, before[j]));
                let i = choose|i: int|
                    0 <= i < others.len() && (#[trigger] others[i]).open_on_start && rest[i]
                        == before[j];
                assert(specs[i].label != specs[n].label);
                assert(windows[i].title != windows[n].title);
                assert(specs[i] == spec_of(windows[i], specs[i].label));
            }
        }
    }
}

/// Opening configured windows one after the other keeps everything in line.
proof fn lemma_opens_mirror<F: Fn(&Ask) -> Outcome>(
    spawn: &F,
    ms: Seq<ManagerView>,
    specs: Seq<WindowSpecView>,
    c: ConfigView,
    k: int,
)
    requires
        well_formed(c),
        in_order(ms[0]),
        ms[0].windows.len() == 0,
        ms[0].names.len() == 0,
        operations(spawn, ms, open_ops(specs), c),
        0 <= k <= specs.len(),
        forall|i: int| 0 <= i < specs.len() ==> planned(c, #[trigger] specs[i]),
        forall|i: int, j: int|
            0 <= i < j < specs.len() ==> {
                &&& (#[trigger] specs[i]).label != (#[trigger] specs[j]).label
                &&& specs[i].title != specs[j].title
            },
    ensures
        mirrors(ms[k], c),
        forall|t: Seq<char>| #[trigger]
            live_titled(ms[k], t) <==> exists|i: int|
                0 <= i < k && (#[trigger] specs[i]).title == t,
        forall|i: int| 0 <= i < ms[k].windows.len() ==> exists|j: int|
            0 <= j < k && (#[trigger] specs[j]).label == (#[trigger] ms[k].windows[i]).label,
    decreases k,
{
    if k > 0 {
        lemma_opens_mirror(spawn, ms, specs, c, k - 1);
        let m = ms[k - 1];
        let s = specs[k - 1];
        let ops = open_ops(specs);
        assert(ops[k - 1] == WindowOpView::Open(s));
        assert(op_applies(spawn, m, ops[k - 1], c, ms[k]));
        let w = choose|w: WindowStateView| #[trigger] builds(spawn, s, w) && ms[k] == opened(m, s, w);
        assert(planned(c, specs[k - 1]));
        let x = choose|x: WindowView|
            c.windows.contains(x) && s == #[trigger] spec_of(x, s.label);
        lemma_rank(labels_of(m.windows), s.label);
        if is_live(m, s.label) {
            let i = window_index(m, s.label);
            assert(labels_of(m.windows)[i] == m.windows[i].label);
            let j = choose|j: int|
                0 <= j < k - 1 && (#[trigger] specs[j]).label == m.windows[i].label;
            assert(specs[j].label != specs[k - 1].label);
        }
        if live_titled(m, s.title) {
            let j = choose|j: int| 0 <= j < k - 1 && (#[trigger] specs[j]).title == s.title;
            assert(specs[j].title != specs[k - 1].title);
        }
        lemma_opened_mirrors(spawn, m, c, x, s.label, w);
        assert forall|t: Seq<char>| #[trigger]
            live_titled(ms[k], t) <==> exists|i: int|
                0 <= i < k && (#[trigger] specs[i]).title == t by {
            if live_titled(m, t) {
                let i = choose|i: int| 0 <= i < k - 1 && (#[trigger] specs[i]).title == t;
                assert(specs[i].title == t);
            }
            if t == s.title {
                assert(specs[k - 1].title == t);
            }
        }
        assert forall|i: int| 0 <= i < ms[k].windows.len() implies exists|j: int|
            0 <= j < k && (#[trigger] specs[j]).label == (#[trigger] ms[k].windows[i]).label by {
            assert(ms[k].windows == m.windows.push(kept_as(w)));
            if i < m.windows.len() {
                assert(ms[k].windows[i] == m.windows[i]);
                let j = choose|j: int|
                    0 <= j < k - 1 && (#[trigger] specs[j]).label == m.windows[i].label;
                assert(specs[j].label == ms[k].windows[i].label);
            } else {
                assert(specs[k - 1].label == ms[k].windows[i].label);
            }
        }
    }
}

/// Materializing a configuration while nothing is open shows what it lists:
/// exactly the windows that open on start are live.
pub proof fn law_starting_shows_the_config<F: Fn(&Ask) -> Outcome>(
    spawn: &F,
    m: ManagerView,
    raw: ConfigView,
    eff: ConfigView,
    n: ManagerView,
)
    requires
        in_order(m),
        m.windows.len() == 0,
        m.names.len() == 0,
        well_formed(eff),
        materializing(spawn, m, raw, eff, n),
    ensures
        mirrors(n, eff),
        n.last_good == eff,
        forall|t: Seq<char>| #[trigger] live_titled(n, t) <==> starts_titled(eff.windows, t),
{
    let start = ManagerView { load_error: None, probe_interval: raw.probe_interval, ..m };
    let none = Seq::<(Seq<char>, Seq<char>)>::empty();
    let specs = configured(eff, none, Seq::empty());
    let first = starting(specs);
    let ops = open_ops(first);
    let mid = choose|mid: ManagerView|
        {
            &&& #[trigger] ops_apply(spawn, start, ops, eff, mid)
            &&& n == (ManagerView { raw_config: raw, last_good: eff, ..mid })
        };
    let ms = choose|ms: Seq<ManagerView>|
        #[trigger] operations(spawn, ms, ops, eff) && ms[0] == start && ms.last() == mid;
    law_labels_are_unique(eff, none, Seq::empty());
    lemma_starting(specs, eff.windows);
    assert forall|k: int| 0 <= k < first.len() implies planned(eff, #[trigger] first[k]) by {
        assert(starts(eff.windows, specs, first[k]));
        let i = choose|i: int|
            0 <= i < eff.windows.len() && (#[trigger] eff.windows[i]).open_on_start && specs[i]
                == first[k];
        assert(specs[i] == spec_of(eff.windows[i], specs[i].label));
        assert(eff.windows.contains(eff.windows[i]));
    }
    let len = first.len() as int;
    assert(ops.len() == len);
    lemma_opens_mirror(spawn, ms, first, eff, len);
    assert(mirrors(mid, eff));
    assert(mirrors(n, eff)) by {
        lemma_same_screen(mid, n, eff);
    }
    assert forall|t: Seq<char>| #[trigger] live_titled(n, t) <==> starts_titled(eff.windows, t) by {
        assert(live_titled(n, t) == live_titled(mid, t)) by {
            lemma_same_titles(mid, n, t);
        }
        if live_titled(mid, t) {
            let k = choose|k: int| 0 <= k < len && (#[trigger] first[k]).title == t;
            assert(starts(eff.windows, specs, first[k]));
            let i = choose|i: int|
                0 <= i < eff.windows.len() && (#[trigger] eff.windows[i]).open_on_start && specs[i]
                    == first[k];
            assert(specs[i] == spec_of(eff.windows[i], specs[i].label));
            assert(eff.windows[i].title == t);
        }
        if starts_titled(eff.windows, t) {
            let i = choose|i: int|
                0 <= i < eff.windows.len() && (#[trigger] eff.windows[i]).title == t
                    && eff.windows[i].open_on_start;
            assert(specs[i] == spec_of(eff.windows[i], specs[i].label));
            let k = choose|k: int| 0 <= k < len && first[k] == specs[i];
            assert(first[k].title == t);
        }
    }
}

/// What is not on screen makes no difference to what is.
proof fn lemma_same_screen(a: ManagerView, b: ManagerView, c: ConfigView)
    requires
        mirrors(a, c),
        b.windows == a.windows,
        b.names == a.names,
        b.detached == a.detached,
    ensures
        mirrors(b, c),
{
    assert forall|l: Seq<char>| #[trigger] window_at(b, l) == window_at(a, l) by {}
}

proof fn lemma_same_titles(a: ManagerView, b: ManagerView, title: Seq<char>)
    requires
        b.windows == a.windows,
    ensures
        live_titled(b, title) == live_titled(a, title),
{
}

/// A reopened window shows what is configured, and the others stay.
pub proof fn law_reopening_shows_the_config<F: Fn(&Ask) -> Outcome>(
    spawn: &F,
    m: ManagerView,
    label: Seq<char>,
    n: ManagerView,
)
    requires
        well_formed(m.last_good),
        mirrors(m, m.last_good),
        reopening(spawn, m, label, n),
    ensures
        mirrors(n, n.last_good),
        n.last_good == m.last_good,
{
    if reopenable(m, label) {
        let c = m.last_good;
        let ls = labels_of(m.windows);
        let specs = current_specs(m);
        let s = spec_labelled(specs, label)->0;
        lemma_names_apart(m);
        assert(live_apart(m.names, ls)) by {
            assert forall|t: Seq<char>|
                #![trigger label_of(m.names, t)]
                label_of(m.names, t) is Some implies ls.contains(label_of(m.names, t)->0) by {
                lemma_rank(ls, label_of(m.names, t)->0);
                assert(window_at(m, label_of(m.names, t)->0) is Some);
            }
        }
        law_labels_are_unique(c, m.names, ls);
        lemma_spec_labelled(specs, label);
        let k = choose|k: int| 0 <= k < specs.len() && specs[k] == s;
        let x = c.windows[k];
        assert(specs[k] == spec_of(x, specs[k].label));
        assert(c.windows.contains(x));
        let w = choose|w: WindowStateView|
            {
                &&& #[trigger] builds(spawn, s, w)
                &&& n == (ManagerView {
                    last_closed: without(m.last_closed, label),
                    ..opened(m, s, w)
                })
            };
        if live_titled(m, x.title) {
            let i = choose|i: int|
                0 <= i < m.windows.len() && (#[trigger] m.windows[i]).title == x.title;
            assert(label_of(m.names, m.windows[i].title) == Some(m.windows[i].label));
            lemma_window_at(m, i);
        }
        lemma_opened_mirrors(spawn, m, c, x, label, w);
        lemma_same_screen(opened(m, s, w), n, c);
    }
}

/// A destroyed window leaves the others as they are.
pub proof fn law_destroying_keeps_the_config_shown(m: ManagerView, label: Seq<char>, c: ConfigView)
    requires
        mirrors(m, c),
    ensures
        mirrors(window_gone(m, label), c),
{
    let closed = window_closed(m, label);
    let n = window_gone(m, label);
    law_closing_keeps_order(m, label);
    lemma_closed_names(m, label);
    lemma_rank(labels_of(m.windows), label);
    assert forall|i: int| 0 <= i < closed.windows.len() implies window_mirrors(
        #[trigger] closed.windows[i],
        c,
    ) by {
        if is_live(m, label) {
            let g = window_index(m, label);
            assert(closed.windows[i] == m.windows[if i < g {
                i
            } else {
                i + 1
            }]);
        }
    }
    lemma_same_screen(closed, n, c);
}

/// Loading a changed configuration shows what it lists, whatever was shown
/// before: where there was nothing to compare it with, the windows that open on
/// start are live.
pub proof fn law_loading_shows_the_config<F: Fn(&Ask) -> Outcome>(
    spawn: &F,
    m: ManagerView,
    raw: ConfigView,
    eff: ConfigView,
    n: ManagerView,
)
    requires
        well_formed(m.last_good),
        well_formed(eff),
        mirrors(m, m.last_good),
        reloading(spawn, m, raw, eff, n),
    ensures
        mirrors(n, eff),
        n.last_good == eff,
        m.last_good.windows.len() == 0 ==> forall|t: Seq<char>| #[trigger]
            live_titled(n, t) <==> starts_titled(eff.windows, t),
        m.last_good.windows.len() > 0 ==> forall|t: Seq<char>| #[trigger]
            live_titled(n, t) <==> has_title(eff.windows, t) && (live_titled(m, t) || !has_title(
                m.last_good.windows,
                t,
            )),
{
    let c = m.last_good;
    let clear = ManagerView { load_error: None, ..m };
    lemma_same_screen(m, clear, c);
    if c.windows.len() == 0 {
        if m.windows.len() > 0 {
            assert(window_mirrors(m.windows[0], c));
            lemma_first_titled(c.windows, m.windows[0].title);
        }
        if m.names.len() > 0 {
            assert(m.names.contains(m.names[0]));
            lemma_window_found(m, m.names[0].1);
        }
        law_starting_shows_the_config(spawn, clear, raw, eff, n);
    } else {
        let all = c.density != raw.density || c.sidebar_drag != raw.sidebar_drag;
        let mid = choose|mid: ManagerView|
            {
                &&& #[trigger] applying(spawn, clear, difference(c, eff), eff, mid)
                &&& restyling(
                    ManagerView { last_good: eff, raw_config: raw, ..mid },
                    all,
                    raw.probe_interval,
                    n,
                )
            };
        law_a_reload_brings_everything_in_line(spawn, clear, c, eff, mid);
        assert(n.windows == mid.windows && n.names == mid.names && n.detached == mid.detached);
        lemma_same_screen(mid, n, eff);
        assert forall|t: Seq<char>| #[trigger]
            live_titled(n, t) <==> has_title(eff.windows, t) && (live_titled(m, t) || !has_title(
                c.windows,
                t,
            )) by {
            lemma_same_titles(mid, n, t);
            lemma_same_titles(m, clear, t);
            assert(live_titled(mid, t) <==> has_title(eff.windows, t) && (live_titled(clear, t)
                || !has_title(c.windows, t)));
        }
    }
}

/// A new search of the roots shows what was found.
pub proof fn law_rescanning_shows_the_config<F: Fn(&Ask) -> Outcome>(
    spawn: &F,
    m: ManagerView,
    fresh: ConfigView,
    n: ManagerView,
)
    requires
        well_formed(m.last_good),
        well_formed(fresh),
        mirrors(m, m.last_good),
        rescanning(spawn, m, fresh, n),
    ensures
        mirrors(n, fresh),
        n.last_good == fresh,
{
    let mid = choose|mid: ManagerView|
        {
            &&& #[trigger] applying(spawn, m, difference(m.last_good, fresh), fresh, mid)
            &&& n == (ManagerView { last_good: fresh, ..mid })
        };
    law_a_reload_brings_everything_in_line(spawn, m, m.last_good, fresh, mid);
    lemma_same_screen(mid, n, fresh);
}

/// Whether the same tabs stand in the same places, called and running as they
/// were, and what was popped out still is.
pub open spec fn same_places(a: Seq<TabEntryView>, b: Seq<TabEntryView>) -> bool {
    &&& a.len() == b.len()
    &&& forall|k: int|
        0 <= k < a.len() ==> {
            &&& (#[trigger] b[k]).id == a[k].id
            &&& b[k].title == a[k].title
            &&& b[k].primary.spec == a[k].primary.spec
            &&& a[k].primary.slot is Detached ==> b[k].primary.slot is Detached
        }
}

/// A change of a window's registry that leaves its tabs in their places leaves
/// what is shown in line with the configuration.
pub proof fn law_tabs_in_place_keep_the_config_shown(
    m: ManagerView,
    i: int,
    v: RegistryView,
    c: ConfigView,
)
    requires
        mirrors(m, c),
        0 <= i < m.windows.len(),
        same_places(m.windows[i].registry.tabs, v.tabs),
    ensures
        mirrors(settled(m, i, v), c),
{
    let n = settled(m, i, v);
    let a = m.windows[i].registry.tabs;
    law_settling_keeps_order(m, i, v);
    assert(tab_ids(v.tabs) =~= tab_ids(a));
    assert forall|k: int| 0 <= k < n.windows.len() implies window_mirrors(
        #[trigger] n.windows[k],
        c,
    ) by {
        assert(window_mirrors(m.windows[k], c));
        if k == i {
            let keys = keys_of(first_titled(c.windows, m.windows[i].title)->0.tabs);
            assert forall|j: int| keys.len() <= j < v.tabs.len() implies (
            #[trigger] v.tabs[j]).primary.slot is Detached by {
                assert(a[j].primary.slot is Detached);
            }
            let listed = first_titled(c.windows, m.windows[i].title)->0.tabs;
            assert forall|p: int, q: int|
                0 <= p < v.tabs.len() && 0 <= q < listed.len() && (#[trigger] v.tabs[p]).id == (
                #[trigger] listed[q]).key && !(v.tabs[p].primary.slot is Detached) implies carries(
                v.tabs[p],
                listed[q],
            ) by {
                assert(a[p].id == listed[q].key);
                assert(carries(a[p], listed[q]));
            }
        }
    }
    let w = n.windows[i];
    assert(n.windows =~= m.windows.update(i, w));
    assert forall|k: int| 0 <= k < n.windows.len() implies label_of(
        n.names,
        (#[trigger] n.windows[k]).title,
    ) == Some(n.windows[k].label) by {
        assert(label_of(m.names, m.windows[k].title) == Some(m.windows[k].label));
    }
    assert forall|p: (Seq<char>, Seq<char>)| #[trigger] n.names.contains(p) implies window_at(
        n,
        p.1,
    ) is Some && window_at(n, p.1)->0.title == p.0 by {
        assert(m.names.contains(p));
        lemma_replaced_at(m, n, i, w, p.1);
        lemma_window_at(m, i);
    }
}

/// Showing, splitting, unloading and popping out tabs, closing second panes,
/// moving the keyboard and framing holes leave all tabs in their places,
/// however the spawns come out.
pub proof fn law_commands_leave_tabs_in_place<F: Fn(&Ask) -> Outcome>(
    spawn: &F,
    v: RegistryView,
    id: Seq<char>,
    which: PaneIdx,
    rect: PixelRect,
)
    ensures
        forall|w: RegistryView, r: Result<bool, SurfaceError>| #[trigger]
            activation(spawn, v, id, w, r) ==> same_places(v.tabs, w.tabs),
        forall|w: RegistryView, r: Option<Seq<char>>| #[trigger]
            unloading(spawn, v, id, w, r) ==> same_places(v.tabs, w.tabs),
        same_places(v.tabs, split_tab(v, id).tabs),
        same_places(v.tabs, secondary_closed(v, id).tabs),
        same_places(v.tabs, focus_moved(v, id, which).tabs),
        same_places(v.tabs, framed(v, which, rect).tabs),
        same_places(v.tabs, detached(v, id).tabs),
{
    lemma_position(v.tabs, id);
    assert forall|w: RegistryView, r: Result<bool, SurfaceError>| #[trigger]
        activation(spawn, v, id, w, r) implies same_places(v.tabs, w.tabs) by {
        law_activating_ends_no_terminal(spawn, v, id, w, r);
    }
    assert forall|w: RegistryView, r: Option<Seq<char>>| #[trigger]
        unloading(spawn, v, id, w, r) implies same_places(v.tabs, w.tabs) by {
        let closed = surfaces_closed(v, id);
        assert(same_places(v.tabs, closed.tabs));
        if unload_leans(v, id) {
            let i = position(v.tabs, id);
            let (p, s) = choose|p: Outcome, s: Outcome|
                leans(spawn, closed, i, p, s) && w == #[trigger] leaned(closed, i, p, s);
            let blank = RegistryView { active: None, ..closed };
            match lean_target(closed, i) {
                None => {},
                Some(x) => {
                    assert(w == activated(blank, x, p, s));
                    let r2 = activate_report(blank, x, p);
                    assert(activation(spawn, blank, x, w, r2));
                    law_activating_ends_no_terminal(spawn, blank, x, w, r2);
                    assert forall|k: int| 0 <= k < v.tabs.len() implies {
                        &&& (#[trigger] w.tabs[k]).id == v.tabs[k].id
                        &&& w.tabs[k].title == v.tabs[k].title
                        &&& w.tabs[k].primary.spec == v.tabs[k].primary.spec
                        &&& v.tabs[k].primary.slot is Detached ==> w.tabs[k].primary.slot is Detached
                    } by {
                        assert(closed.tabs[k].id == v.tabs[k].id);
                    }
                },
            }
        }
    }
}

} // verus!
