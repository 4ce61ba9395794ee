//! What the manager keeps through everything: windows under labels of their
//! own, popped-out tabs that no reload touches, and terminals that survive a
//! trip to another window.

use crate::lifecycle::{
    adding_all, adding_new, adding_one, additions, applying, builds, builds_window,
    changes_nothing, failure_line, failure_lines, failures_text, fills, materializing, metas,
    new_additions, new_registry, op_applies, opened, operations, ops_apply, plan_ids, recoloured,
    reconciling, removals, reopenable, reopening, reshowing, respawning, respawning_one, respawns,
    showing_first, spec_labelled, starting, updated, updating, window_closed, window_gone,
    window_removed,
};
use crate::manager::{
    current_specs, detached_index, detached_labels, home_is_last, home_of, is_live, is_out, is_snapshot,
    labels_of, lemma_rank, next_reopen, out_of_surface, settled, spec_labels, window_index,
    with_effect, without, DetachedView, EffectView, InitDtoView, ManagerView, WindowStateView,
};
use crate::model::ConfigView;
use crate::plan::{
    configured, detach_token, labelled, open_ops, ops_of, MetaPlanView, TabPlanView, TabUpdateView,
    WindowOpView, WindowSpecView, DETACHED_PREFIX, HOME_LABEL,
};
use crate::plan_laws::law_detach_tokens_are_distinct;
use crate::popout::{
    child_exits, docked, docked_exit, docked_from, homing, keeping, lemma_out_is_out, moved_home,
    out_ended, out_exit_said, out_secondary_closed, redocking, taking_back, to_show,
};
use crate::presence::known_of;
use crate::reconcile::{difference, ReconciliationView};
use crate::reconcile_laws::{law_unchanged_config_is_silent, well_formed};
use crate::registry::{
    activate_report, activated, activates, activation, added, adding, answers, appended,
    appended_request, attachable, attached, clearing, close_all_cmds, close_entry_cmds, closings,
    emptied, known, lean_target, leaned, leans, lemma_position, lemma_same_ids, live_neighbour,
    liveness, located, new_entry, popped_out, position, rank, removed, reordered, secondary_closed,
    settled_at, surfaces_closed, tab_at, unload_leans, unloading, Ask, Outcome, PaneIdx,
    RegistryView, SpawnRequestView, SurfaceCmdView, TabEntryView, TabSlot,
};
use crate::registry_laws::{law_lean_finds_a_live_tab, law_reorder_is_a_sorted_permutation};
use crate::surface::{SurfaceError, TabSpecView};
use vstd::prelude::*;

verus! {

/// Every window has a label of its own, and so has every popped-out tab;
/// nothing that a registry told surfaces waits in it.
pub open spec fn in_order(m: ManagerView) -> bool {
    &&& labels_of(m.windows).no_duplicates()
    &&& detached_labels(m.detached).no_duplicates()
    &&& forall|i: int|
        0 <= i < m.windows.len() ==> (#[trigger] m.windows[i]).registry.outbox.len() == 0
}

/// A window whose registry was replaced, and whose commands went out, keeps
/// everything in order.
pub proof fn law_settling_keeps_order(m: ManagerView, i: int, v: RegistryView)
    requires
        in_order(m),
        0 <= i < m.windows.len(),
    ensures
        in_order(settled(m, i, v)),
        labels_of(settled(m, i, v).windows) == labels_of(m.windows),
{
    let n = settled(m, i, v);
    assert(labels_of(n.windows) =~= labels_of(m.windows));
    assert forall|k: int| 0 <= k < n.windows.len() implies (
    #[trigger] n.windows[k]).registry.outbox.len() == 0 by {
        if k != i {
            assert(n.windows[k] == m.windows[k]);
        }
    }
}

/// Opening a window keeps everything in order: it replaces the one under its
/// label, where there is one.
pub proof fn law_opening_keeps_order(m: ManagerView, s: WindowSpecView, w: WindowStateView)
    requires
        in_order(m),
        w.label == s.label,
    ensures
        in_order(opened(m, s, w)),
        is_live(opened(m, s, w), s.label),
{
    let n = opened(m, s, w);
    let quiet = WindowStateView {
        registry: RegistryView { outbox: Seq::empty(), ..w.registry },
        ..w
    };
    let ls = labels_of(m.windows);
    lemma_rank(ls, s.label);
    let i = rank(ls, s.label);
    if i < m.windows.len() {
        assert(labels_of(n.windows) =~= ls);
    } else {
        assert(labels_of(n.windows) =~= ls.push(s.label));
        assert(!ls.contains(s.label));
        assert(ls.push(s.label).no_duplicates());
        assert(labels_of(n.windows)[ls.len() as int] == s.label);
    }
    assert forall|k: int| 0 <= k < n.windows.len() implies (
    #[trigger] n.windows[k]).registry.outbox.len() == 0 by {
        if n.windows[k] != quiet {
            assert(n.windows[k] == m.windows[k]);
        }
    }
    lemma_rank(labels_of(n.windows), s.label);
}

/// Closing a window keeps everything in order, and its label is free again.
pub proof fn law_closing_keeps_order(m: ManagerView, label: Seq<char>)
    requires
        in_order(m),
    ensures
        in_order(window_removed(m, label)),
        in_order(window_closed(m, label)),
        in_order(window_gone(m, label)),
        !is_live(window_removed(m, label), label),
{
    let ls = labels_of(m.windows);
    lemma_rank(ls, label);
    if is_live(m, label) {
        let i = window_index(m, label);
        let n = window_removed(m, label);
        let rest = labels_of(n.windows);
        assert(rest =~= ls.remove(i));
        assert forall|k: int| 0 <= k < n.windows.len() implies (
        #[trigger] n.windows[k]).registry.outbox.len() == 0 by {
            if k < i {
                assert(n.windows[k] == m.windows[k]);
            } else {
                assert(n.windows[k] == m.windows[k + 1]);
            }
        }
        assert(!rest.contains(label)) by {
            if rest.contains(label) {
                let k = choose|k: int| 0 <= k < rest.len() && rest[k] == label;
                if k < i {
                    assert(ls[k] == label);
                } else {
                    assert(ls[k + 1] == label);
                }
            }
        }
        lemma_rank(rest, label);
    }
    let noted = ManagerView { last_closed: without(m.last_closed, label).push(label), ..m };
    assert(window_gone(m, label).windows == window_removed(m, label).windows);
}

/// Every operation keeps everything in order.
pub proof fn lemma_op_keeps_order<F: Fn(&Ask) -> Outcome>(
    spawn: &F,
    m: ManagerView,
    op: WindowOpView,
    c: ConfigView,
    n: ManagerView,
)
    requires
        in_order(m),
        op_applies(spawn, m, op, c, n),
    ensures
        in_order(n),
{
    match op {
        WindowOpView::Open(s) => {
            let w = choose|w: WindowStateView|
                #[trigger] builds(spawn, s, w) && n == opened(m, s, w);
            law_opening_keeps_order(m, s, w);
        },
        WindowOpView::Close(l) => {
            law_closing_keeps_order(m, l);
        },
        WindowOpView::Update(u) => {
            let i = window_index(m, u.label);
            lemma_rank(labels_of(m.windows), u.label);
            if is_live(m, u.label) && !changes_nothing(m.windows[i].registry, u) {
                let (v, d) = choose|v: RegistryView, d: InitDtoView|
                    {
                        &&& updating(spawn, m.windows[i].registry, u, v)
                        &&& is_snapshot(
                            d,
                            settled(recoloured(m, i, u.colour), i, v).windows[i],
                            known_of(m.presence, m.windows[i].label),
                            c,
                            None,
                        )
                        &&& n == #[trigger] updated(m, i, u.colour, v, d)
                    };
                let r = recoloured(m, i, u.colour);
                assert(labels_of(r.windows) =~= labels_of(m.windows));
                law_settling_keeps_order(r, i, v);
            }
        },
    }
}

/// Operations, one after the other, keep everything in order.
pub proof fn lemma_ops_keep_order<F: Fn(&Ask) -> Outcome>(
    spawn: &F,
    ms: Seq<ManagerView>,
    ops: Seq<WindowOpView>,
    c: ConfigView,
    k: int,
)
    requires
        operations(spawn, ms, ops, c),
        in_order(ms[0]),
        0 <= k <= ops.len(),
    ensures
        in_order(ms[k]),
    decreases k,
{
    if k > 0 {
        lemma_ops_keep_order(spawn, ms, ops, c, k - 1);
        assert(op_applies(spawn, ms[k - 1], ops[k - 1], c, ms[k]));
        lemma_op_keeps_order(spawn, ms[k - 1], ops[k - 1], c, ms[k]);
    }
}

/// Bringing the windows in line with a configuration keeps everything in
/// order, however the spawns come out.
pub proof fn law_applying_keeps_order<F: Fn(&Ask) -> Outcome>(
    spawn: &F,
    m: ManagerView,
    recon: ReconciliationView,
    c: ConfigView,
    n: ManagerView,
)
    requires
        in_order(m),
        applying(spawn, m, recon, c, n),
    ensures
        in_order(n),
{
    let ops = ops_of(recon, c, m.names, labels_of(m.windows));
    let ms = choose|ms: Seq<ManagerView>|
        #[trigger] operations(spawn, ms, ops, c) && ms[0] == m && ms.last() == n;
    lemma_ops_keep_order(spawn, ms, ops, c, ops.len() as int);
}

/// Materializing a configuration and reopening a window keep everything in
/// order.
pub proof fn law_materializing_keeps_order<F: Fn(&Ask) -> Outcome>(
    spawn: &F,
    m: ManagerView,
    raw: ConfigView,
    eff: ConfigView,
    n: ManagerView,
)
    requires
        in_order(m),
        materializing(spawn, m, raw, eff, n),
    ensures
        in_order(n),
{
    let start = ManagerView { load_error: None, probe_interval: raw.probe_interval, ..m };
    let ops = open_ops(
        starting(configured(eff, Seq::empty(), Seq::empty())),
    );
    let mid = choose|mid: ManagerView|
        {
            &&& #[trigger] ops_apply(spawn, start, ops, eff, mid)
            &&& n == (ManagerView { raw_config: raw, last_good: eff, ..mid })
        };
    let ms = choose|ms: Seq<ManagerView>|
        #[trigger] operations(spawn, ms, ops, eff) && ms[0] == start && ms.last() == mid;
    lemma_ops_keep_order(spawn, ms, ops, eff, ops.len() as int);
}

/// Reopening a window keeps everything in order, and the window does not wait
/// to be reopened any more.
pub proof fn law_reopening_keeps_order<F: Fn(&Ask) -> Outcome>(
    spawn: &F,
    m: ManagerView,
    label: Seq<char>,
    n: ManagerView,
)
    requires
        in_order(m),
        reopening(spawn, m, label, n),
    ensures
        in_order(n),
        reopenable(m, label) ==> is_live(n, label) && !n.last_closed.contains(label),
{
    if reopenable(m, label) {
        let s = spec_labelled(current_specs(m), label)->0;
        lemma_spec_labelled(current_specs(m), label);
        let w = choose|w: WindowStateView|
            {
                &&& #[trigger] builds(spawn, s, w)
                &&& n == (ManagerView {
                    last_closed: without(m.last_closed, label),
                    ..opened(m, s, w)
                })
            };
        law_opening_keeps_order(m, s, w);
        lemma_without(m.last_closed, label);
    }
}

/// A spec is found under its label, among the specs.
pub proof fn lemma_spec_labelled(specs: Seq<WindowSpecView>, label: Seq<char>)
    ensures
        spec_labelled(specs, label) matches Some(s) ==> s.label == label
            && specs.contains(s),
    decreases specs.len(),
{
    if specs.len() > 0 {
        if specs[0].label != label {
            let rest = specs.skip(1);
            lemma_spec_labelled(rest, label);
            if spec_labelled(rest, label) is Some {
                let s = spec_labelled(rest, label)->0;
                let k = choose|k: int| 0 <= k < rest.len() && rest[k] == s;
                assert(specs[k + 1] == s);
            }
        } else {
            assert(specs[0] == specs[0]);
        }
    }
}

proof fn lemma_without(labels: Seq<Seq<char>>, label: Seq<char>)
    ensures
        !without(labels, label).contains(label),
    decreases labels.len(),
{
    if labels.len() > 0 {
        lemma_without(labels.drop_last(), label);
        let before = without(labels.drop_last(), label);
        let after = without(labels, label);
        if after.contains(label) {
            let k = choose|k: int| 0 <= k < after.len() && after[k] == label;
            if k < before.len() {
                assert(before[k] == label);
            }
        }
    }
}

/// A window that was just destroyed is the one that is reopened next, as long
/// as it is configured under its label.
pub proof fn law_the_last_closed_is_reopened_first(m: ManagerView, label: Seq<char>)
    requires
        in_order(m),
    ensures
        ({
            let n = window_gone(m, label);
            &&& n.last_closed == without(m.last_closed, label).push(label)
            &&& spec_labels(current_specs(n)).contains(label) ==> next_reopen(n) == Some(label)
        }),
{
    let n = window_gone(m, label);
    law_closing_keeps_order(m, label);
    assert(n.windows == window_removed(m, label).windows);
    lemma_rank(labels_of(n.windows), label);
    assert(n.last_closed.last() == label);
}

/// The home surface is shown exactly while nothing else is on screen, and it
/// says which of three states that is.
pub proof fn law_the_home_surface_recedes(m: ManagerView, config_exists: bool, path: Seq<char>)
    ensures
        home_of(m, config_exists, path) is Some <==> home_is_last(m),
        home_is_last(m) <==> m.windows.len() == 0 && m.detached.len() == 0,
        home_of(m, config_exists, path) is Some ==> {
            let h = home_of(m, config_exists, path)->0;
            &&& h is NoConfig <==> !config_exists
            &&& h is Broken <==> config_exists && m.load_error is Some
        },
{
}

/// Loading a configuration that did not change changes nothing on screen:
/// windows that were closed stay closed.
pub proof fn law_an_unchanged_config_changes_nothing<
    F: Fn(&Ask) -> Outcome,
>(spawn: &F, m: ManagerView, n: ManagerView)
    requires
        well_formed(m.last_good),
        applying(spawn, m, difference(m.last_good, m.last_good), m.last_good, n),
    ensures
        n == m,
{
    let c = m.last_good;
    law_unchanged_config_is_silent(c);
    let recon = difference(c, c);
    let ops = ops_of(recon, c, m.names, labels_of(m.windows));
    assert(recon.open =~= Seq::empty());
    assert(recon.close =~= Seq::empty());
    assert(recon.update =~= Seq::empty());
    assert(labelled(
        recon.open,
        Seq::empty(),
        labels_of(m.windows).push(HOME_LABEL@),
    ).specs =~= Seq::empty());
    assert(ops =~= Seq::empty());
    let ms = choose|ms: Seq<ManagerView>|
        #[trigger] operations(spawn, ms, ops, c) && ms[0] == m && ms.last() == n;
}

proof fn lemma_close_all(tabs: Seq<TabEntryView>, n: int, i: int, which: PaneIdx, h: usize)
    requires
        0 <= i < n <= tabs.len(),
        tabs[i].slot(which) == Some(TabSlot::Spawned(h)),
    ensures
        close_all_cmds(tabs, n).contains(SurfaceCmdView::Close(h)),
    decreases n,
{
    let before = close_all_cmds(tabs, n - 1);
    let mine = close_entry_cmds(tabs[n - 1]);
    let all = close_all_cmds(tabs, n);
    if i < n - 1 {
        lemma_close_all(tabs, n - 1, i, which, h);
        let k = choose|k: int| 0 <= k < before.len() && before[k] == SurfaceCmdView::Close(h);
        assert(all[k] == SurfaceCmdView::Close(h));
    } else {
        match which {
            PaneIdx::Primary => {
                assert(mine[0] == SurfaceCmdView::Close(h));
                assert(all[before.len() as int] == SurfaceCmdView::Close(h));
            },
            PaneIdx::Secondary => {
                let k = mine.len() - 1;
                assert(mine[k] == SurfaceCmdView::Close(h));
                assert(all[before.len() + k] == SurfaceCmdView::Close(h));
            },
        }
    }
}

/// Closing a window ends every terminal that it holds.
pub proof fn law_closing_a_window_ends_its_terminals(
    m: ManagerView,
    label: Seq<char>,
    t: int,
    which: PaneIdx,
    h: usize,
)
    requires
        is_live(m, label),
        0 <= t < m.windows[window_index(m, label)].registry.tabs.len(),
        m.windows[window_index(m, label)].registry.tabs[t].slot(which) == Some(
            TabSlot::Spawned(h),
        ),
    ensures
        window_removed(m, label).outbox.contains(EffectView::Surface(SurfaceCmdView::Close(h))),
{
    let v = m.windows[window_index(m, label)].registry;
    lemma_close_all(v.tabs, v.tabs.len() as int, t, which, h);
    let closes = close_all_cmds(v.tabs, v.tabs.len() as int);
    let k = choose|k: int| 0 <= k < closes.len() && closes[k] == SurfaceCmdView::Close(h);
    let all = emptied(v).outbox;
    assert(all[v.outbox.len() + k] == SurfaceCmdView::Close(h));
    let n = window_removed(m, label).outbox;
    assert(n[m.outbox.len() + v.outbox.len() + k] == EffectView::Surface(
        SurfaceCmdView::Close(h),
    ));
}

/// Whether a slot is as it was, or got a surface that it lacked.
pub open spec fn slot_grows(a: TabSlot, b: TabSlot) -> bool {
    a == b || (a is Cold && b is Spawned)
}

/// Whether the tabs are the same ones, and every slot as it was or with a
/// surface that it lacked.
pub open spec fn tabs_grow(a: Seq<TabEntryView>, b: Seq<TabEntryView>) -> bool {
    &&& a.len() == b.len()
    &&& forall|k: int|
        0 <= k < a.len() ==> {
            &&& (#[trigger] b[k]).id == a[k].id
            &&& b[k].title == a[k].title
            &&& b[k].primary.spec == a[k].primary.spec
            &&& slot_grows(a[k].primary.slot, b[k].primary.slot)
            &&& a[k].secondary is Some ==> b[k].secondary is Some && slot_grows(
                a[k].secondary->0.slot,
                b[k].secondary->0.slot,
            )
        }
}

proof fn lemma_settled_grows(v: RegistryView, i: int, which: PaneIdx, o: Outcome)
    requires
        0 <= i < v.tabs.len(),
    ensures
        tabs_grow(v.tabs, settled_at(v, i, which, o).tabs),
{
    let w = settled_at(v, i, which, o).tabs;
    assert forall|k: int| 0 <= k < v.tabs.len() implies {
        &&& (#[trigger] w[k]).id == v.tabs[k].id
        &&& slot_grows(v.tabs[k].primary.slot, w[k].primary.slot)
        &&& v.tabs[k].secondary is Some ==> w[k].secondary is Some && slot_grows(
            v.tabs[k].secondary->0.slot,
            w[k].secondary->0.slot,
        )
    } by {
        if k != i {
            assert(w[k] == v.tabs[k]);
        }
    }
}

/// Activating a tab only ever gives surfaces to panes that lack them: it ends
/// no terminal, and what is popped out stays out.
pub proof fn law_activating_ends_no_terminal<F: Fn(&Ask) -> Outcome>(
    spawn: &F,
    v: RegistryView,
    id: Seq<char>,
    w: RegistryView,
    r: Result<bool, SurfaceError>,
)
    requires
        activation(spawn, v, id, w, r),
    ensures
        tabs_grow(v.tabs, w.tabs),
        known(v.tabs, id) ==> w.active == Some(id),
        !known(v.tabs, id) ==> w == v,
{
    let (p, s) = choose|p: Outcome, s: Outcome|
        {
            &&& activates(spawn, v, id, p, s)
            &&& w == #[trigger] activated(v, id, p, s)
            &&& r == activate_report(v, id, p)
        };
    lemma_position(v.tabs, id);
    if known(v.tabs, id) {
        let i = position(v.tabs, id);
        let mid = settled_at(v, i, PaneIdx::Primary, p);
        lemma_settled_grows(v, i, PaneIdx::Primary, p);
        lemma_settled_grows(mid, i, PaneIdx::Secondary, s);
        assert forall|k: int| 0 <= k < v.tabs.len() implies {
            &&& (#[trigger] w.tabs[k]).id == v.tabs[k].id
            &&& slot_grows(v.tabs[k].primary.slot, w.tabs[k].primary.slot)
            &&& v.tabs[k].secondary is Some ==> w.tabs[k].secondary is Some && slot_grows(
                v.tabs[k].secondary->0.slot,
                w.tabs[k].secondary->0.slot,
            )
        } by {
            assert(mid.tabs[k].id == v.tabs[k].id);
        }
    }
}

/// Adding a tab appends it: the others keep their places and what stands in
/// them.
pub proof fn lemma_adding<F: Fn(&Ask) -> Outcome>(
    spawn: &F,
    v: RegistryView,
    spec: TabSpecView,
    load: bool,
    w: RegistryView,
    r: Result<(), SurfaceError>,
)
    requires
        adding(spawn, v, spec, load, w, r),
    ensures
        w.tabs.len() == v.tabs.len() + 1,
        w.tabs.last().id == spec.id,
        w.tabs.last().title == spec.title,
        w.tabs.last().primary.spec == spec,
        !(w.tabs.last().primary.slot is Detached),
        w.active == v.active,
        forall|k: int|
            0 <= k < v.tabs.len() ==> {
                &&& (#[trigger] w.tabs[k]).id == v.tabs[k].id
                &&& w.tabs[k].title == v.tabs[k].title
                &&& w.tabs[k].primary == v.tabs[k].primary
            },
{
    let (p, s) = choose|p: Outcome, s: Outcome|
        {
            &&& load ==> answers(
                spawn,
                Some(
                    SpawnRequestView {
                        window: v.window,
                        spec,
                        rect: v.rect,
                        ended: closings(v.outbox),
                    },
                ),
                p,
            )
            &&& answers(
                spawn,
                appended_request(v, spec, load, p),
                s,
            )
            &&& w == #[trigger] added(v, spec, load, p, s)
            &&& r == match p {
                Ok(_) => Ok::<(), SurfaceError>(()),
                Err(e) => if load {
                    Err(e)
                } else {
                    Ok::<(), SurfaceError>(())
                },
            }
        };
    let n = v.tabs.len() as int;
    let t = new_entry(spec, load, p);
    let pushed = v.tabs.push(t);
    lemma_position(pushed, spec.id);
    let a = appended(v, spec, load, p);
    assert(a.tabs.len() == n + 1);
    assert forall|k: int| 0 <= k < n + 1 implies {
        &&& (#[trigger] a.tabs[k]).id == pushed[k].id
        &&& a.tabs[k].title == pushed[k].title
        &&& a.tabs[k].primary == pushed[k].primary
    } by {}
    let z = settled_at(a, n, PaneIdx::Secondary, s);
    assert forall|k: int| 0 <= k < n + 1 implies {
        &&& (#[trigger] z.tabs[k]).id == a.tabs[k].id
        &&& z.tabs[k].title == a.tabs[k].title
        &&& z.tabs[k].primary == a.tabs[k].primary
    } by {
        if k != n {
            assert(z.tabs[k] == a.tabs[k]);
        }
    }
    assert forall|k: int| 0 <= k < n implies {
        &&& (#[trigger] w.tabs[k]).id == v.tabs[k].id
        &&& w.tabs[k].title == v.tabs[k].title
        &&& w.tabs[k].primary == v.tabs[k].primary
    } by {
        assert(a.tabs[k].id == pushed[k].id);
        assert(z.tabs[k].id == a.tabs[k].id);
    }
    assert(a.tabs[n].id == pushed[n].id);
    assert(z.tabs[n].id == a.tabs[n].id);
}

/// The identities of tabs.
pub open spec fn tab_ids(tabs: Seq<TabEntryView>) -> Seq<Seq<char>> {
    tabs.map_values(|t: TabEntryView| t.id)
}

/// Whether a tab is called and runs what was planned for it, and is not popped
/// out.
pub open spec fn as_planned(t: TabEntryView, plan: TabPlanView) -> bool {
    &&& t.id == plan.spec.id
    &&& t.title == plan.spec.title
    &&& t.primary.spec == plan.spec
    &&& !(t.primary.slot is Detached)
}

proof fn lemma_additions<F: Fn(&Ask) -> Outcome>(
    spawn: &F,
    vs: Seq<RegistryView>,
    plans: Seq<TabPlanView>,
    rs: Seq<Result<(), SurfaceError>>,
    k: int,
)
    requires
        additions(spawn, vs, plans, rs),
        vs[0].tabs.len() == 0,
        0 <= k <= plans.len(),
    ensures
        tab_ids(vs[k].tabs) == plan_ids(plans.take(k)),
        forall|j: int| 0 <= j < vs[k].tabs.len() ==> as_planned(#[trigger] vs[k].tabs[j], plans[j]),
    decreases k,
{
    if k > 0 {
        lemma_additions(spawn, vs, plans, rs, k - 1);
        let plan = plans[k - 1];
        lemma_adding(spawn, vs[k - 1], plan.spec, plan.load_on_open, vs[k], rs[k - 1]);
        let before = tab_ids(vs[k - 1].tabs);
        let after = tab_ids(vs[k].tabs);
        assert(plan_ids(plans.take(k - 1)).len() == k - 1);
        assert(before.len() == vs[k - 1].tabs.len());
        assert forall|j: int| 0 <= j < after.len() implies after[j] == plan_ids(
            plans.take(k),
        )[j] by {
            if j < before.len() {
                assert(vs[k].tabs[j].id == vs[k - 1].tabs[j].id);
                assert(before[j] == plan_ids(plans.take(k - 1))[j]);
            }
        }
        assert(after =~= plan_ids(plans.take(k)));
        assert forall|j: int| 0 <= j < vs[k].tabs.len() implies as_planned(
            #[trigger] vs[k].tabs[j],
            plans[j],
        ) by {
            if j < before.len() {
                assert(vs[k].tabs[j].id == vs[k - 1].tabs[j].id);
                assert(as_planned(vs[k - 1].tabs[j], plans[j]));
            } else {
                assert(before.len() == k - 1);
            }
        }
    } else {
        assert(tab_ids(vs[0].tabs) =~= plan_ids(plans.take(0)));
    }
}

/// A built window has all its tabs, in order, whichever terminals could not be
/// spawned, and shows the first of them.
pub proof fn law_built_windows_have_all_their_tabs<
    F: Fn(&Ask) -> Outcome,
>(spawn: &F, s: WindowSpecView, w: WindowStateView)
    requires
        builds(spawn, s, w),
    ensures
        tab_ids(w.registry.tabs) == plan_ids(s.tabs),
        forall|j: int|
            0 <= j < w.registry.tabs.len() ==> as_planned(
                #[trigger] w.registry.tabs[j],
                s.tabs[j],
            ),
        s.tabs.len() > 0 ==> w.registry.active == Some(s.tabs[0].spec.id),
        w.label == s.label,
        w.title == s.title,
        w.colour == s.colour,
{
    let h = choose|h: usize| builds_window(spawn, s, h) && #[trigger] fills(spawn, s, h, w);
    let (mid, before, lines) = choose|
        mid: RegistryView,
        before: Seq<Seq<char>>,
        lines: Seq<Seq<char>>,
    |
        {
            &&& #[trigger] adding_all(spawn, new_registry(h), s.tabs, mid, before)
            &&& #[trigger] showing_first(spawn, mid, s.tabs, before, w.registry, lines)
            &&& w == (WindowStateView {
                label: s.label,
                title: s.title,
                colour: s.colour,
                spawn_error: failures_text(lines),
                registry: w.registry,
            })
        };
    let (vs, rs) = choose|vs: Seq<RegistryView>, rs: Seq<Result<(), SurfaceError>>|
        {
            &&& #[trigger] additions(spawn, vs, s.tabs, rs)
            &&& vs[0] == new_registry(h)
            &&& vs.last() == mid
            &&& before == failure_lines(s.tabs, rs)
        };
    lemma_additions(spawn, vs, s.tabs, rs, s.tabs.len() as int);
    assert(s.tabs.take(s.tabs.len() as int) =~= s.tabs);
    if s.tabs.len() > 0 {
        let first = s.tabs[0].spec.id;
        let r = choose|r: Result<bool, SurfaceError>|
            {
                &&& #[trigger] activation(spawn, mid, first, w.registry, r)
                &&& lines == match r {
                    Ok(_) => before,
                    Err(e) => {
                        let line = failure_line(s.tabs[0].spec.title, e);
                        if before.contains(line) {
                            before
                        } else {
                            before.push(line)
                        }
                    },
                }
            };
        law_activating_ends_no_terminal(spawn, mid, first, w.registry, r);
        lemma_position(mid.tabs, first);
        assert(tab_ids(mid.tabs).len() == mid.tabs.len());
        assert(plan_ids(s.tabs).len() == s.tabs.len());
        assert(tab_ids(mid.tabs)[0] == plan_ids(s.tabs)[0]);
        assert(mid.tabs[0].id == first);
        assert(known(mid.tabs, first));
        assert(tab_ids(w.registry.tabs) =~= tab_ids(mid.tabs));
        assert forall|j: int| 0 <= j < w.registry.tabs.len() implies as_planned(
            #[trigger] w.registry.tabs[j],
            s.tabs[j],
        ) by {
            assert(as_planned(mid.tabs[j], s.tabs[j]));
        }
    }
}

proof fn lemma_removed_keeps_out(v: RegistryView, other: Seq<char>, id: Seq<char>)
    requires
        popped_out(v.tabs, id),
        other != id,
    ensures
        popped_out(removed(v, other).tabs, id),
{
    lemma_position(v.tabs, other);
    let w = removed(v, other).tabs;
    if known(v.tabs, other) {
        let k = choose|k: int|
            0 <= k < v.tabs.len() && (#[trigger] v.tabs[k]).id == id
                && v.tabs[k].primary.slot is Detached;
        let i = position(v.tabs, other);
        if k < i {
            assert(w[k] == v.tabs[k]);
        } else {
            assert(w[k - 1] == v.tabs[k]);
        }
    }
}

proof fn lemma_removals_keep_out(v: RegistryView, ids: Seq<Seq<char>>, id: Seq<char>)
    requires
        popped_out(v.tabs, id),
    ensures
        popped_out(removals(v, ids).tabs, id),
    decreases ids.len(),
{
    if ids.len() > 0 {
        lemma_removals_keep_out(v, ids.drop_last(), id);
        let before = removals(v, ids.drop_last());
        if !popped_out(before.tabs, ids.last()) {
            lemma_removed_keeps_out(before, ids.last(), id);
        }
    }
}

proof fn lemma_adding_keeps_out<F: Fn(&Ask) -> Outcome>(
    spawn: &F,
    v: RegistryView,
    plan: TabPlanView,
    w: RegistryView,
    r: Result<(), SurfaceError>,
    id: Seq<char>,
)
    requires
        adding(spawn, v, plan.spec, plan.load_on_open, w, r),
        popped_out(v.tabs, id),
    ensures
        popped_out(w.tabs, id),
{
    lemma_adding(spawn, v, plan.spec, plan.load_on_open, w, r);
    let k = choose|k: int|
        0 <= k < v.tabs.len() && (#[trigger] v.tabs[k]).id == id
            && v.tabs[k].primary.slot is Detached;
    assert(w.tabs[k].id == id);
}

proof fn lemma_new_additions_keep_out<F: Fn(&Ask) -> Outcome>(
    spawn: &F,
    vs: Seq<RegistryView>,
    plans: Seq<TabPlanView>,
    k: int,
    id: Seq<char>,
)
    requires
        new_additions(spawn, vs, plans),
        popped_out(vs[0].tabs, id),
        0 <= k <= plans.len(),
    ensures
        popped_out(vs[k].tabs, id),
    decreases k,
{
    if k > 0 {
        lemma_new_additions_keep_out(spawn, vs, plans, k - 1, id);
        let plan = plans[k - 1];
        assert(adding_one(spawn, vs[k - 1], plan, vs[k]));
        if !popped_out(vs[k - 1].tabs, plan.spec.id) {
            let r = choose|r: Result<(), SurfaceError>|
                #[trigger] adding(spawn, vs[k - 1], plan.spec, plan.load_on_open, vs[k], r);
            lemma_adding_keeps_out(spawn, vs[k - 1], plan, vs[k], r, id);
        }
    }
}

proof fn lemma_respawns_keep_out<F: Fn(&Ask) -> Outcome>(
    spawn: &F,
    vs: Seq<RegistryView>,
    plans: Seq<TabPlanView>,
    k: int,
    id: Seq<char>,
)
    requires
        respawns(spawn, vs, plans),
        popped_out(vs[0].tabs, id),
        0 <= k <= plans.len(),
    ensures
        popped_out(vs[k].tabs, id),
    decreases k,
{
    if k > 0 {
        lemma_respawns_keep_out(spawn, vs, plans, k - 1, id);
        let plan = plans[k - 1];
        let v = vs[k - 1];
        assert(respawning_one(spawn, v, plan, vs[k]));
        if !popped_out(v.tabs, plan.spec.id) {
            let gone = removed(v, plan.spec.id);
            let r = choose|r: Result<(), SurfaceError>|
                #[trigger] adding(spawn, gone, plan.spec, plan.load_on_open, vs[k], r);
            lemma_removed_keeps_out(v, plan.spec.id, id);
            lemma_adding_keeps_out(spawn, gone, plan, vs[k], r, id);
        }
    }
}

proof fn lemma_metas_keep_out(v: RegistryView, ms: Seq<MetaPlanView>, id: Seq<char>)
    requires
        popped_out(v.tabs, id),
    ensures
        popped_out(metas(v, ms).tabs, id),
    decreases ms.len(),
{
    if ms.len() > 0 {
        lemma_metas_keep_out(v, ms.drop_last(), id);
        let before = metas(v, ms.drop_last());
        let after = metas(v, ms);
        lemma_position(before.tabs, ms.last().id);
        let k = choose|k: int|
            0 <= k < before.tabs.len() && (#[trigger] before.tabs[k]).id == id
                && before.tabs[k].primary.slot is Detached;
        assert(after.tabs[k].id == id && after.tabs[k].primary.slot is Detached);
    }
}

/// The tab changes of a reload leave every popped-out tab alone: what stands
/// for it stays, so that it can return.
pub proof fn law_reconciling_leaves_popped_out_tabs<
    F: Fn(&Ask) -> Outcome,
>(
    spawn: &F,
    v: RegistryView,
    remove: Seq<Seq<char>>,
    add: Seq<TabPlanView>,
    respawn: Seq<TabPlanView>,
    w: RegistryView,
    id: Seq<char>,
)
    requires
        reconciling(spawn, v, remove, add, respawn, w),
        popped_out(v.tabs, id),
    ensures
        popped_out(w.tabs, id),
{
    lemma_removals_keep_out(v, remove, id);
    let v1 = removals(v, remove);
    let mid = choose|mid: RegistryView|
        {
            &&& #[trigger] adding_new(spawn, v1, add, mid)
            &&& respawning(spawn, mid, respawn, w)
        };
    let vs = choose|vs: Seq<RegistryView>|
        #[trigger] new_additions(spawn, vs, add) && vs[0] == v1 && vs.last() == mid;
    lemma_new_additions_keep_out(spawn, vs, add, add.len() as int, id);
    let ws = choose|ws: Seq<RegistryView>|
        #[trigger] respawns(spawn, ws, respawn) && ws[0] == mid && ws.last() == w;
    lemma_respawns_keep_out(spawn, ws, respawn, respawn.len() as int, id);
}

/// No update of a window touches its popped-out tabs.
pub proof fn law_updates_leave_popped_out_tabs<F: Fn(&Ask) -> Outcome>(
    spawn: &F,
    v: RegistryView,
    u: TabUpdateView,
    w: RegistryView,
    id: Seq<char>,
)
    requires
        updating(spawn, v, u, w),
        popped_out(v.tabs, id),
    ensures
        popped_out(w.tabs, id),
{
    let mid = choose|mid: RegistryView|
        {
            &&& #[trigger] reconciling(
                spawn,
                v,
                u.remove_tabs,
                u.add_tabs,
                u.respawn_tabs,
                mid,
            )
            &&& reshowing(
                spawn,
                reordered(metas(mid, u.set_meta), u.order),
                v.active,
                u.respawn_tabs,
                w,
            )
        };
    law_reconciling_leaves_popped_out_tabs(
        spawn,
        v,
        u.remove_tabs,
        u.add_tabs,
        u.respawn_tabs,
        mid,
        id,
    );
    lemma_metas_keep_out(mid, u.set_meta, id);
    let before = metas(mid, u.set_meta);
    let sorted = reordered(before, u.order);
    law_reorder_is_a_sorted_permutation(before, u.order);
    let k = choose|k: int|
        0 <= k < before.tabs.len() && (#[trigger] before.tabs[k]).id == id
            && before.tabs[k].primary.slot is Detached;
    let t = before.tabs[k];
    broadcast use vstd::seq_lib::group_to_multiset_ensures;

    assert(before.tabs.to_multiset().contains(t));
    assert(sorted.tabs.contains(t));
    let j = choose|j: int| 0 <= j < sorted.tabs.len() && sorted.tabs[j] == t;
    assert(popped_out(sorted.tabs, id));
    if v.active is Some && plan_ids(u.respawn_tabs).contains(v.active->0) {
        let r = choose|r: Result<bool, SurfaceError>|
            #[trigger] activation(spawn, sorted, v.active->0, w, r);
        law_activating_ends_no_terminal(spawn, sorted, v.active->0, w, r);
        assert(w.tabs[j].id == id);
    }
}

/// After tab `id` was unloaded, no surface stands in it.
pub proof fn lemma_unloaded<F: Fn(&Ask) -> Outcome>(
    spawn: &F,
    v: RegistryView,
    id: Seq<char>,
    w: RegistryView,
    r: Option<Seq<char>>,
)
    requires
        unloading(spawn, v, id, w, r),
        known(v.tabs, id),
        tab_ids(v.tabs).no_duplicates(),
    ensures
        known(w.tabs, id),
        position(w.tabs, id) == position(v.tabs, id),
        !tab_at(w.tabs, id).is_live(),
{
    let i = position(v.tabs, id);
    lemma_position(v.tabs, id);
    let closed = surfaces_closed(v, id);
    assert(closed.tabs.len() == v.tabs.len());
    assert forall|k: int| 0 <= k < v.tabs.len() implies (#[trigger] v.tabs[k]).id
        == closed.tabs[k].id by {}
    lemma_same_ids(v.tabs, closed.tabs, id, 0);
    assert(!closed.tabs[i].is_live());
    if unload_leans(v, id) {
        let (p, s) = choose|p: Outcome, s: Outcome|
            leans(spawn, closed, i, p, s) && w == #[trigger] leaned(
                closed,
                i,
                p,
                s,
            );
        let blank = RegistryView { active: None, ..closed };
        match lean_target(closed, i) {
            None => {},
            Some(x) => {
                law_lean_finds_a_live_tab(liveness(closed.tabs), i);
                lemma_position(closed.tabs, x);
                let n = live_neighbour(
                    liveness(closed.tabs),
                    i,
                )->0;
                let k = position(closed.tabs, x);
                assert(tab_ids(v.tabs)[k] == v.tabs[k].id);
                assert(tab_ids(v.tabs)[n] == v.tabs[n].id);
                assert(closed.tabs[n].id == v.tabs[n].id);
                assert(closed.tabs[k].id == v.tabs[k].id);
                assert(k == n);
                assert(k != i);
                let mid = settled_at(blank, k, PaneIdx::Primary, p);
                let last = settled_at(mid, k, PaneIdx::Secondary, s);
                lemma_settled_grows(blank, k, PaneIdx::Primary, p);
                lemma_settled_grows(mid, k, PaneIdx::Secondary, s);
                assert(mid.tabs[i] == closed.tabs[i]);
                assert(last.tabs[i] == closed.tabs[i]);
                assert forall|j: int| 0 <= j < closed.tabs.len() implies (
                #[trigger] closed.tabs[j]).id == w.tabs[j].id by {
                    assert(mid.tabs[j].id == closed.tabs[j].id);
                    assert(last.tabs[j].id == mid.tabs[j].id);
                }
                lemma_same_ids(closed.tabs, w.tabs, id, 0);
            },
        }
    }
}

/// Whether a tab of `tabs` holds the surfaces of a popped-out tab.
pub open spec fn holds_surfaces(tabs: Seq<TabEntryView>, d: DetachedView) -> bool {
    exists|k: int|
        {
            &&& 0 <= k < tabs.len()
            &&& (#[trigger] tabs[k]).id == d.tab_id
            &&& tabs[k].primary.slot == TabSlot::Spawned(d.surface)
            &&& d.secondary is Some ==> tabs[k].slot(PaneIdx::Secondary) == Some(
                TabSlot::Spawned(d.secondary->0),
            )
        }
}

/// A popped-out tab that returns to a live window has the terminals there that
/// it had outside, both of them: none was spawned anew in their place.
pub proof fn law_a_returning_tab_keeps_its_terminals<
    F: Fn(&Ask) -> Outcome,
>(spawn: &F, m: ManagerView, d: DetachedView, n: ManagerView)
    requires
        homing(spawn, m, d, n),
        is_live(m, d.origin_label),
        known(m.windows[window_index(m, d.origin_label)].registry.tabs, d.tab_id),
        tab_ids(
            m.windows[window_index(m, d.origin_label)].registry.tabs,
        ).no_duplicates(),
    ensures
        n.windows.len() == m.windows.len(),
        holds_surfaces(n.windows[window_index(m, d.origin_label)].registry.tabs, d),
{
    let i = window_index(m, d.origin_label);
    let v = m.windows[i].registry;
    lemma_rank(labels_of(m.windows), d.origin_label);
    let (w, r) = choose|w: RegistryView, r: Option<Seq<char>>|
        {
            &&& #[trigger] unloading(spawn, v, d.tab_id, w, r)
            &&& taking_back(spawn, moved_home(settled(m, i, w), d), i, d, n)
        };
    lemma_unloaded(spawn, v, d.tab_id, w, r);
    let home = moved_home(settled(m, i, w), d);
    let quiet = home.windows[i].registry;
    assert(quiet.tabs == w.tabs);
    assert(attachable(quiet, d.tab_id, d.secondary));
    let back = attached(quiet, d.tab_id, d.surface, d.secondary);
    lemma_position(quiet.tabs, d.tab_id);
    let k = position(quiet.tabs, d.tab_id);
    assert(back.tabs[k].id == d.tab_id);
    assert(back.tabs[k].primary.slot == TabSlot::Spawned(d.surface));
    let (z, a) = choose|z: RegistryView, a: Result<bool, SurfaceError>|
        #[trigger] activation(spawn, back, to_show(back, d.tab_id), z, a) && n == settled(
            home,
            i,
            z,
        );
    law_activating_ends_no_terminal(spawn, back, to_show(back, d.tab_id), z, a);
    assert(z.tabs[k].id == d.tab_id);
    assert(n.windows[i].registry.tabs == z.tabs);
    assert(n.windows[i].registry.tabs[k].id == d.tab_id);
}

/// Nothing is brought back while the application is on its way out.
pub proof fn law_quitting_brings_nothing_back<F: Fn(&Ask) -> Outcome>(
    spawn: &F,
    m: ManagerView,
    label: Seq<char>,
    n: ManagerView,
)
    requires
        m.quitting,
        redocking(spawn, m, label, n),
    ensures
        n == m,
{
}

/// When the child of a second pane ends, its tab and every other terminal of
/// the window stay.
pub proof fn law_a_second_pane_ends_alone<F: Fn(&Ask) -> Outcome>(
    spawn: &F,
    m: ManagerView,
    i: int,
    tab: Seq<char>,
    n: ManagerView,
    k: int,
)
    requires
        docked_exit(spawn, m, i, tab, PaneIdx::Secondary, n),
        0 <= i < m.windows.len(),
        0 <= k < m.windows[i].registry.tabs.len(),
    ensures
        n.windows[i].registry.tabs.len() == m.windows[i].registry.tabs.len(),
        n.windows[i].registry.tabs[k].id == m.windows[i].registry.tabs[k].id,
        n.windows[i].registry.tabs[k].primary == m.windows[i].registry.tabs[k].primary,
        m.windows[i].registry.tabs[k].id != tab ==> n.windows[i].registry.tabs[k]
            == m.windows[i].registry.tabs[k],
        n.windows[i].registry.active == m.windows[i].registry.active,
{
    lemma_position(m.windows[i].registry.tabs, tab);
}

proof fn lemma_out_removed(m: ManagerView, k: int)
    requires
        in_order(m),
        0 <= k < m.detached.len(),
    ensures
        in_order(ManagerView { detached: m.detached.remove(k), ..m }),
{
    let ls = detached_labels(m.detached);
    assert(detached_labels(m.detached.remove(k)) =~= ls.remove(k));
}

/// Bringing a tab back keeps everything in order, and its popped-out window is
/// forgotten.
pub proof fn law_redocking_keeps_order<F: Fn(&Ask) -> Outcome>(
    spawn: &F,
    m: ManagerView,
    label: Seq<char>,
    n: ManagerView,
)
    requires
        in_order(m),
        redocking(spawn, m, label, n),
    ensures
        in_order(n),
        !m.quitting ==> !is_out(n, label),
{
    let ls = detached_labels(m.detached);
    lemma_rank(ls, label);
    if !m.quitting && is_out(m, label) {
        let k = detached_index(m, label);
        let d = m.detached[k];
        let without_it = ManagerView { detached: m.detached.remove(k), ..m };
        lemma_out_removed(m, k);
        let rest = detached_labels(without_it.detached);
        assert(rest =~= ls.remove(k));
        assert(!rest.contains(label)) by {
            if rest.contains(label) {
                let j = choose|j: int| 0 <= j < rest.len() && rest[j] == label;
                if j < k {
                    assert(ls[j] == label);
                } else {
                    assert(ls[j + 1] == label);
                }
            }
        }
        let mid = choose|mid: ManagerView|
            {
                &&& if is_live(m, d.origin_label) {
                    mid == without_it
                } else {
                    reopening(spawn, without_it, d.origin_label, mid)
                }
                &&& #[trigger] homing(spawn, mid, m.detached[detached_index(m, label)], n)
            };
        if !is_live(m, d.origin_label) {
            law_reopening_keeps_order(spawn, without_it, d.origin_label, mid);
        }
        assert(mid.detached == without_it.detached);
        lemma_homing_keeps_order(spawn, mid, d, n);
        lemma_rank(rest, label);
    }
}

proof fn lemma_homing_keeps_order<F: Fn(&Ask) -> Outcome>(
    spawn: &F,
    m: ManagerView,
    d: DetachedView,
    n: ManagerView,
)
    requires
        in_order(m),
        homing(spawn, m, d, n),
    ensures
        in_order(n),
        n.detached == m.detached,
{
    let i = window_index(m, d.origin_label);
    lemma_rank(labels_of(m.windows), d.origin_label);
    if is_live(m, d.origin_label) {
        let (v, r) = choose|v: RegistryView, r: Option<Seq<char>>|
            {
                &&& #[trigger] unloading(spawn, m.windows[i].registry, d.tab_id, v, r)
                &&& taking_back(spawn, moved_home(settled(m, i, v), d), i, d, n)
            };
        law_settling_keeps_order(m, i, v);
        let home = moved_home(settled(m, i, v), d);
        assert(in_order(home));
        let q = home.windows[i].registry;
        if attachable(q, d.tab_id, d.secondary) {
            let back = attached(q, d.tab_id, d.surface, d.secondary);
            let (z, a) = choose|z: RegistryView, a: Result<bool, SurfaceError>|
                #[trigger] activation(spawn, back, to_show(back, d.tab_id), z, a) && n == settled(
                    home,
                    i,
                    z,
                );
            law_settling_keeps_order(home, i, z);
        }
    }
}

/// Keeping a popped-out tab keeps everything in order, and its window is known
/// from then on.
pub proof fn law_popping_out_keeps_order(m: ManagerView, d: DetachedView, n: ManagerView)
    requires
        in_order(m),
        keeping(m, d, n),
    ensures
        in_order(n),
        is_out(n, d.label),
{
    let ls = detached_labels(m.detached);
    lemma_rank(ls, d.label);
    let k = rank(ls, d.label);
    let ns = detached_labels(n.detached);
    if k < m.detached.len() {
        assert(ns =~= ls);
    } else {
        assert(ns =~= ls.push(d.label));
        assert(!ls.contains(d.label));
        assert(ns[ls.len() as int] == d.label);
    }
    lemma_rank(ns, d.label);
    assert(n.windows == m.windows);
}

/// Whether a popped-out tab is in the window that its token names.
pub open spec fn under_token(d: DetachedView) -> bool {
    d.label == DETACHED_PREFIX@ + detach_token(d.origin_label, d.tab_id)
}

/// A tab that is popped out takes the place of no other: every other stays as
/// it was, and the new one comes after them.
pub proof fn law_pop_outs_stay_apart(m: ManagerView, d: DetachedView, n: ManagerView)
    requires
        forall|i: int|
            0 <= i < m.detached.len() ==> {
                &&& under_token(#[trigger] m.detached[i])
                &&& m.detached[i].origin_label != d.origin_label || m.detached[i].tab_id != d.tab_id
            },
        under_token(d),
        keeping(m, d, n),
    ensures
        n.detached == m.detached.push(d),
        forall|i: int| 0 <= i < n.detached.len() ==> under_token(#[trigger] n.detached[i]),
{
    let ls = detached_labels(m.detached);
    lemma_rank(ls, d.label);
    let k = rank(ls, d.label);
    if k < ls.len() {
        let e = m.detached[k];
        assert(ls[k] == e.label);
        law_detach_tokens_are_distinct(e.origin_label, e.tab_id, d.origin_label, d.tab_id);
        let p = DETACHED_PREFIX@;
        assert(e.label.skip(p.len() as int) =~= detach_token(e.origin_label, e.tab_id));
        assert(d.label.skip(p.len() as int) =~= detach_token(d.origin_label, d.tab_id));
    }
}

/// The end of a terminal keeps everything in order.
pub proof fn law_exits_keep_order<F: Fn(&Ask) -> Outcome>(
    spawn: &F,
    m: ManagerView,
    h: usize,
    n: ManagerView,
)
    requires
        in_order(m),
        child_exits(spawn, m, h, n),
    ensures
        in_order(n),
{
    let i = docked(m, h);
    lemma_docked(m.windows, h, 0);
    if i < m.windows.len() {
        let at = located(m.windows[i].registry.tabs, h)->0;
        match at.1 {
            PaneIdx::Secondary => {
                law_settling_keeps_order(m, i, secondary_closed(m.windows[i].registry, at.0));
            },
            PaneIdx::Primary => {
                let (v, r) = choose|v: RegistryView, r: Option<Seq<char>>|
                    {
                        &&& #[trigger] unloading(spawn, m.windows[i].registry, at.0, v, r)
                        &&& n == with_effect(
                            settled(m, i, v),
                            EffectView::TabExited {
                                label: m.windows[i].label,
                                id: at.0,
                                new_active: r,
                            },
                        )
                    };
                law_settling_keeps_order(m, i, v);
            },
        }
    } else {
        match out_of_surface(m.detached, h, 0) {
            None => {},
            Some((label, which)) => {
                let k = detached_index(m, label);
                lemma_out_is_out(m.detached, h, 0);
                lemma_rank(detached_labels(m.detached), label);
                match which {
                    PaneIdx::Secondary => {
                        assert(detached_labels(out_secondary_closed(m, label).detached)
                            =~= detached_labels(m.detached));
                    },
                    PaneIdx::Primary => {
                        let d = m.detached[k];
                        let ended = out_ended(m, k);
                        lemma_out_removed(m, k);
                        assert(in_order(ended));
                        let j = window_index(m, d.origin_label);
                        lemma_rank(labels_of(m.windows), d.origin_label);
                        if is_live(m, d.origin_label) {
                            let (v, r, dto) = choose|
                                v: RegistryView,
                                r: Option<Seq<char>>,
                                dto: InitDtoView,
                            |
                                {
                                    &&& clearing(
                                        spawn,
                                        m.windows[j].registry,
                                        d.tab_id,
                                        v,
                                        r,
                                    )
                                    &&& is_snapshot(
                                        dto,
                                        settled(ended, j, v).windows[j],
                                        known_of(
                                            m.presence,
                                            m.windows[j].label,
                                        ),
                                        m.last_good,
                                        m.windows[j].spawn_error,
                                    )
                                    &&& n == #[trigger] out_exit_said(
                                        out_ended(m, k),
                                        m.detached[k],
                                        j,
                                        v,
                                        r,
                                        dto,
                                    )
                                };
                            law_settling_keeps_order(ended, j, v);
                        }
                    },
                }
            },
        }
    }
}

proof fn lemma_docked(ws: Seq<WindowStateView>, h: usize, i: int)
    requires
        0 <= i <= ws.len(),
    ensures
        i <= docked_from(ws, h, i) <= ws.len(),
    decreases ws.len() - i,
{
    if i < ws.len() {
        lemma_docked(ws, h, i + 1);
    }
}

} // verus!
