//! How windows come and go: building them, reopening them, and bringing them
//! in line with a new configuration.

use crate::manager::{
    current_specs, first_rect, initial_rect, is_live, is_snapshot, labels_of, lemma_rank,
    next_reopen, put_window, settled, state_views, surface_effects, window_index, with_effect,
    without, without_label, without_title, Effect, EffectView, InitDto, InitDtoView, ManagerView,
    WindowManager, WindowState, WindowStateView,
};
use crate::model::{Config, ConfigView};
use crate::plan::{
    configured, meta_plan_views, op_views, open_ops, ops_of, plan_views, reconcile_ops, spec_views,
    window_specs, MetaPlan, MetaPlanView, TabPlan, TabPlanView, TabUpdateView, WindowOp,
    WindowOpView, WindowSpec, WindowSpecView,
};
use crate::presence::known_of;
use crate::probe::{bump_all, queued_all, BumpQueue};
use crate::reconcile::{difference, reconcile, same_list, Reconciliation, ReconciliationView};
use crate::registry::{
    activation, adding, can_ask, emptied, popped_out, removed, reordered, with_meta, Ask, AskView,
    Outcome, Registry, RegistryView, TabEntryView,
};
use crate::scanner::{effective, effective_config};
use crate::surface::SurfaceError;
use crate::text::{copy_list, copy_opt, holds, opt_view, owned, same, views};
use vstd::prelude::*;

verus! {

/// The line that says which tab could not be opened, and why.
pub open spec fn failure_line(title: Seq<char>, e: SurfaceError) -> Seq<char> {
    title + ": "@ + e.text()
}

fn failure(title: &str, e: SurfaceError) -> (r: String)
    ensures
        r@ == failure_line(title@, e),
{
    let mut out: String = owned(title);
    out.append(": ");
    let m: String = e.message();
    out.append(m.as_str());
    out
}

/// Lines, one after the other.
pub open spec fn joined_lines(lines: Seq<Seq<char>>) -> Seq<char>
    decreases lines.len(),
{
    if lines.len() == 0 {
        Seq::empty()
    } else if lines.len() == 1 {
        lines[0]
    } else {
        joined_lines(lines.drop_last()) + "; "@ + lines.last()
    }
}

/// What the chrome is told of the tabs that could not be opened.
pub open spec fn failures_text(lines: Seq<Seq<char>>) -> Option<Seq<char>> {
    if lines.len() == 0 {
        None
    } else {
        Some("couldn't open terminal — "@ + joined_lines(lines))
    }
}

fn failures(lines: &Vec<String>) -> (r: Option<String>)
    ensures
        opt_view(r) == failures_text(views(lines@)),
{
    let ghost lv = views(lines@);
    if lines.len() == 0 {
        return None;
    }
    let mut joined: String = lines[0].clone();
    let mut i: usize = 1;
    assert(lv.take(1)[0] == lines@[0]@);
    while i < lines.len()
        invariant
            1 <= i <= lines.len(),
            lv == views(lines@),
            joined@ == joined_lines(lv.take(i as int)),
        decreases lines.len() - i,
    {
        assert(lv.take(i + 1).drop_last() =~= lv.take(i as int));
        assert(lv.take(i + 1).last() == lines@[i as int]@);
        joined.append("; ");
        joined.append(lines[i].as_str());
        i = i + 1;
    }
    assert(lv.take(i as int) =~= lv);
    let mut out: String = owned("couldn't open terminal — ");
    out.append(joined.as_str());
    Some(out)
}

/// The registry of a new window.
pub open spec fn new_registry(window: usize) -> RegistryView {
    RegistryView {
        window,
        tabs: Seq::empty(),
        active: None,
        rect: first_rect(),
        rect_secondary: first_rect(),
        outbox: Seq::empty(),
    }
}

/// The lines for the tabs that could not be spawned.
pub open spec fn failure_lines(
    plans: Seq<TabPlanView>,
    rs: Seq<Result<(), SurfaceError>>,
) -> Seq<Seq<char>>
    decreases rs.len(),
{
    if rs.len() == 0 {
        Seq::empty()
    } else {
        let before = failure_lines(plans, rs.drop_last());
        match rs.last() {
            Ok(_) => before,
            Err(e) => before.push(failure_line(plans[rs.len() - 1].spec.title, e)),
        }
    }
}

/// Whether `vs` are the registries along the way as the tabs `plans` are
/// added, each addition reporting what `rs` says.
pub open spec fn additions<F: Fn(&Ask) -> Outcome>(
    spawn: &F,
    vs: Seq<RegistryView>,
    plans: Seq<TabPlanView>,
    rs: Seq<Result<(), SurfaceError>>,
) -> bool {
    &&& vs.len() == plans.len() + 1
    &&& rs.len() == plans.len()
    &&& forall|k: int|
        0 <= k < plans.len() ==> adding(
            spawn,
            vs[k],
            (#[trigger] plans[k]).spec,
            plans[k].load_on_open,
            vs[k + 1],
            rs[k],
        )
}

/// Whether adding the tabs `plans` may lead from `v` to `w`, with a line in
/// `lines` for each that could not be spawned.
pub open spec fn adding_all<F: Fn(&Ask) -> Outcome>(
    spawn: &F,
    v: RegistryView,
    plans: Seq<TabPlanView>,
    w: RegistryView,
    lines: Seq<Seq<char>>,
) -> bool {
    exists|vs: Seq<RegistryView>, rs: Seq<Result<(), SurfaceError>>|
        {
            &&& #[trigger] additions(spawn, vs, plans, rs)
            &&& vs[0] == v
            &&& vs.last() == w
            &&& lines == failure_lines(plans, rs)
        }
}

/// Whether showing the first of `plans` may lead from `v` to `w`; a line that
/// says why it could not be is not said twice.
pub open spec fn showing_first<F: Fn(&Ask) -> Outcome>(
    spawn: &F,
    v: RegistryView,
    plans: Seq<TabPlanView>,
    before: Seq<Seq<char>>,
    w: RegistryView,
    lines: Seq<Seq<char>>,
) -> bool {
    if plans.len() == 0 {
        w == v && lines == before
    } else {
        exists|r: Result<bool, SurfaceError>|
            {
                &&& #[trigger] activation(spawn, v, plans[0].spec.id, w, r)
                &&& lines == match r {
                    Ok(_) => before,
                    Err(e) => {
                        let line = failure_line(plans[0].spec.title, e);
                        if before.contains(line) {
                            before
                        } else {
                            before.push(line)
                        }
                    },
                }
            }
    }
}

/// Whether `spawn` may answer with window `h` where one of the given spec is
/// asked for.
pub open spec fn builds_window<F: Fn(&Ask) -> Outcome>(
    spawn: &F,
    s: WindowSpecView,
    h: usize,
) -> bool {
    exists|a: &Ask|
        {
            &&& a@ == AskView::Window {
                label: s.label,
                title: s.title,
                width: s.width,
                height: s.height,
            }
            &&& #[trigger] call_ensures(spawn, (a,), Ok::<usize, SurfaceError>(h))
        }
}

/// Whether filling window `h`, built by the given spec, may come out as `w`:
/// its tabs in order, the first of them shown, and a tab that could not be
/// spawned reported but there.
pub open spec fn fills<F: Fn(&Ask) -> Outcome>(
    spawn: &F,
    s: WindowSpecView,
    h: usize,
    w: WindowStateView,
) -> bool {
    exists|mid: RegistryView, before: Seq<Seq<char>>, lines: Seq<Seq<char>>|
        {
            &&& #[trigger] adding_all(spawn, new_registry(h), s.tabs, mid, before)
            &&& #[trigger] showing_first(spawn, mid, s.tabs, before, w.registry, lines)
            &&& w == (WindowStateView {
                label: s.label,
                title: s.title,
                colour: s.colour,
                spawn_error: failures_text(lines),
                registry: w.registry,
            })
        }
}

/// Whether building a window of the given spec may come out as `w`: the window
/// is there before anything is spawned in it.
pub open spec fn builds<F: Fn(&Ask) -> Outcome>(
    spawn: &F,
    s: WindowSpecView,
    w: WindowStateView,
) -> bool {
    exists|h: usize| builds_window(spawn, s, h) && #[trigger] fills(spawn, s, h, w)
}

/// The manager after a window was opened as `w`.
pub open spec fn opened(m: ManagerView, s: WindowSpecView, w: WindowStateView) -> ManagerView {
    ManagerView {
        windows: put_window(
            m.windows,
            WindowStateView {
                registry: RegistryView { outbox: Seq::empty(), ..w.registry },
                ..w
            },
        ),
        names: without_title(m.names, s.title).push((s.title, s.label)),
        outbox: m.outbox + surface_effects(w.registry.outbox),
        ..m
    }
}

/// The manager without the window labelled `label`: its terminals end.
pub open spec fn window_removed(m: ManagerView, label: Seq<char>) -> ManagerView {
    if is_live(m, label) {
        let i = window_index(m, label);
        ManagerView {
            windows: m.windows.remove(i),
            names: without_label(m.names, label),
            outbox: m.outbox + surface_effects(emptied(m.windows[i].registry).outbox),
            ..m
        }
    } else {
        m
    }
}

/// The manager after a reload closed the window labelled `label`.
pub open spec fn window_closed(m: ManagerView, label: Seq<char>) -> ManagerView {
    if is_live(m, label) {
        with_effect(window_removed(m, label), EffectView::CloseWindow(label))
    } else {
        m
    }
}

/// The manager after the window labelled `label` was destroyed: it is the one
/// that was closed last.
pub open spec fn window_gone(m: ManagerView, label: Seq<char>) -> ManagerView {
    window_removed(
        ManagerView { last_closed: without(m.last_closed, label).push(label), ..m },
        label,
    )
}

/// The registry without the tabs `ids`, except those that are popped out.
pub open spec fn removals(v: RegistryView, ids: Seq<Seq<char>>) -> RegistryView
    decreases ids.len(),
{
    if ids.len() == 0 {
        v
    } else {
        let before = removals(v, ids.drop_last());
        if popped_out(before.tabs, ids.last()) {
            before
        } else {
            removed(before, ids.last())
        }
    }
}

/// Whether `vs` are the registries along the way as those of `plans` that are
/// not popped out are added.
pub open spec fn new_additions<F: Fn(&Ask) -> Outcome>(
    spawn: &F,
    vs: Seq<RegistryView>,
    plans: Seq<TabPlanView>,
) -> bool {
    &&& vs.len() == plans.len() + 1
    &&& forall|k: int|
        0 <= k < plans.len() ==> adding_one(spawn, vs[k], #[trigger] plans[k], vs[k + 1])
}

/// Whether adding those of `plans` that are not popped out may lead from `v`
/// to `w`.
pub open spec fn adding_new<F: Fn(&Ask) -> Outcome>(
    spawn: &F,
    v: RegistryView,
    plans: Seq<TabPlanView>,
    w: RegistryView,
) -> bool {
    exists|vs: Seq<RegistryView>|
        #[trigger] new_additions(spawn, vs, plans) && vs[0] == v && vs.last() == w
}

/// Whether adding one tab, unless it is popped out, may lead from `v` to `w`.
pub open spec fn adding_one<F: Fn(&Ask) -> Outcome>(
    spawn: &F,
    v: RegistryView,
    plan: TabPlanView,
    w: RegistryView,
) -> bool {
    if popped_out(v.tabs, plan.spec.id) {
        w == v
    } else {
        exists|r: Result<(), SurfaceError>|
            #[trigger] adding(spawn, v, plan.spec, plan.load_on_open, w, r)
    }
}

/// Whether `vs` are the registries along the way as those of `plans` that are
/// not popped out are spawned anew.
pub open spec fn respawns<F: Fn(&Ask) -> Outcome>(
    spawn: &F,
    vs: Seq<RegistryView>,
    plans: Seq<TabPlanView>,
) -> bool {
    &&& vs.len() == plans.len() + 1
    &&& forall|k: int|
        0 <= k < plans.len() ==> respawning_one(spawn, vs[k], #[trigger] plans[k], vs[k + 1])
}

/// Whether spawning those of `plans` anew that are not popped out may lead
/// from `v` to `w`.
pub open spec fn respawning<F: Fn(&Ask) -> Outcome>(
    spawn: &F,
    v: RegistryView,
    plans: Seq<TabPlanView>,
    w: RegistryView,
) -> bool {
    exists|vs: Seq<RegistryView>|
        #[trigger] respawns(spawn, vs, plans) && vs[0] == v && vs.last() == w
}

/// Whether spawning one tab anew, unless it is popped out, may lead from `v`
/// to `w`.
pub open spec fn respawning_one<F: Fn(&Ask) -> Outcome>(
    spawn: &F,
    v: RegistryView,
    plan: TabPlanView,
    w: RegistryView,
) -> bool {
    if popped_out(v.tabs, plan.spec.id) {
        w == v
    } else {
        exists|r: Result<(), SurfaceError>|
            #[trigger] adding(
                spawn,
                removed(v, plan.spec.id),
                plan.spec,
                plan.load_on_open,
                w,
                r,
            )
    }
}

/// Whether the tab changes of a reload may lead from `v` to `w`. Tabs that are
/// popped out are left alone.
pub open spec fn reconciling<F: Fn(&Ask) -> Outcome>(
    spawn: &F,
    v: RegistryView,
    remove: Seq<Seq<char>>,
    add: Seq<TabPlanView>,
    respawn: Seq<TabPlanView>,
    w: RegistryView,
) -> bool {
    exists|mid: RegistryView|
        {
            &&& #[trigger] adding_new(spawn, removals(v, remove), add, mid)
            &&& respawning(spawn, mid, respawn, w)
        }
}

/// The registry with new metadata for several tabs.
pub open spec fn metas(v: RegistryView, ms: Seq<MetaPlanView>) -> RegistryView
    decreases ms.len(),
{
    if ms.len() == 0 {
        v
    } else {
        let m = ms.last();
        with_meta(metas(v, ms.drop_last()), m.id, m.meta, m.tree, m.tree_path)
    }
}

/// The identities of plans.
pub open spec fn plan_ids(plans: Seq<TabPlanView>) -> Seq<Seq<char>> {
    plans.map_values(|p: TabPlanView| p.spec.id)
}

/// Whether showing a tab again that was shown and was spawned anew may lead
/// from `v` to `w`.
pub open spec fn reshowing<F: Fn(&Ask) -> Outcome>(
    spawn: &F,
    v: RegistryView,
    shown: Option<Seq<char>>,
    respawned: Seq<TabPlanView>,
    w: RegistryView,
) -> bool {
    if shown is Some && plan_ids(respawned).contains(shown->0) {
        exists|r: Result<bool, SurfaceError>| #[trigger] activation(spawn, v, shown->0, w, r)
    } else {
        w == v
    }
}

/// Whether an update may lead a window's registry from `v` to `w`.
pub open spec fn updating<F: Fn(&Ask) -> Outcome>(
    spawn: &F,
    v: RegistryView,
    u: TabUpdateView,
    w: RegistryView,
) -> bool {
    exists|mid: RegistryView|
        {
            &&& #[trigger] reconciling(
                spawn,
                v,
                u.remove_tabs,
                u.add_tabs,
                u.respawn_tabs,
                mid,
            )
            &&& reshowing(
                spawn,
                reordered(metas(mid, u.set_meta), u.order),
                v.active,
                u.respawn_tabs,
                w,
            )
        }
}

/// Whether an update changes nothing of a window.
pub open spec fn changes_nothing(v: RegistryView, u: TabUpdateView) -> bool {
    &&& u.colour is None
    &&& u.add_tabs.len() == 0
    &&& u.remove_tabs.len() == 0
    &&& u.order == v.tabs.map_values(|t: TabEntryView| t.id)
    &&& u.set_meta.len() == 0
    &&& u.respawn_tabs.len() == 0
}

/// The manager with window `i` in a new colour, where there is one.
pub open spec fn recoloured(m: ManagerView, i: int, colour: Option<Seq<char>>) -> ManagerView {
    match colour {
        Some(c) => ManagerView {
            windows: m.windows.update(i, WindowStateView { colour: c, ..m.windows[i] }),
            ..m
        },
        None => m,
    }
}

/// The manager after window `i` got a new colour and the registry `v`, and its
/// chrome the snapshot `d`.
pub open spec fn updated(
    m: ManagerView,
    i: int,
    colour: Option<Seq<char>>,
    v: RegistryView,
    d: InitDtoView,
) -> ManagerView {
    with_effect(settled(recoloured(m, i, colour), i, v), EffectView::Refresh(d))
}

/// Whether an update under the new configuration `c` may lead from `m` to `n`:
/// the chrome of the window gets a new snapshot.
pub open spec fn update_applies<F: Fn(&Ask) -> Outcome>(
    spawn: &F,
    m: ManagerView,
    u: TabUpdateView,
    c: ConfigView,
    n: ManagerView,
) -> bool {
    let i = window_index(m, u.label);
    if !is_live(m, u.label) || changes_nothing(m.windows[i].registry, u) {
        n == m
    } else {
        exists|v: RegistryView, d: InitDtoView|
            {
                &&& updating(spawn, m.windows[i].registry, u, v)
                &&& is_snapshot(
                    d,
                    settled(recoloured(m, i, u.colour), i, v).windows[i],
                    known_of(m.presence, m.windows[i].label),
                    c,
                    None,
                )
                &&& n == #[trigger] updated(m, i, u.colour, v, d)
            }
    }
}

/// Whether one operation may lead from `m` to `n`.
pub open spec fn op_applies<F: Fn(&Ask) -> Outcome>(
    spawn: &F,
    m: ManagerView,
    op: WindowOpView,
    c: ConfigView,
    n: ManagerView,
) -> bool {
    match op {
        WindowOpView::Open(s) => exists|w: WindowStateView|
            #[trigger] builds(spawn, s, w) && n == opened(m, s, w),
        WindowOpView::Close(l) => n == window_closed(m, l),
        WindowOpView::Update(u) => update_applies(spawn, m, u, c, n),
    }
}

/// Whether `ms` are the managers along the way as `ops` are carried out.
pub open spec fn operations<F: Fn(&Ask) -> Outcome>(
    spawn: &F,
    ms: Seq<ManagerView>,
    ops: Seq<WindowOpView>,
    c: ConfigView,
) -> bool {
    &&& ms.len() == ops.len() + 1
    &&& forall|k: int|
        0 <= k < ops.len() ==> op_applies(spawn, ms[k], #[trigger] ops[k], c, ms[k + 1])
}

/// Whether operations, one after the other, may lead from `m` to `n`.
pub open spec fn ops_apply<F: Fn(&Ask) -> Outcome>(
    spawn: &F,
    m: ManagerView,
    ops: Seq<WindowOpView>,
    c: ConfigView,
    n: ManagerView,
) -> bool {
    exists|ms: Seq<ManagerView>|
        #[trigger] operations(spawn, ms, ops, c) && ms[0] == m && ms.last() == n
}

/// Whether applying a reconciliation may lead from `m` to `n`.
pub open spec fn applying<F: Fn(&Ask) -> Outcome>(
    spawn: &F,
    m: ManagerView,
    recon: ReconciliationView,
    c: ConfigView,
    n: ManagerView,
) -> bool {
    ops_apply(spawn, m, ops_of(recon, c, m.names, labels_of(m.windows)), c, n)
}

/// The windows that open when the application starts.
pub open spec fn starting(specs: Seq<WindowSpecView>) -> Seq<WindowSpecView>
    decreases specs.len(),
{
    if specs.len() == 0 {
        Seq::empty()
    } else if specs.last().open_on_start {
        starting(specs.drop_last()).push(specs.last())
    } else {
        starting(specs.drop_last())
    }
}

/// Whether materializing a configuration may lead from `m` to `n`: every
/// window that opens on start is opened, and the configuration is the one in
/// force.
pub open spec fn materializing<F: Fn(&Ask) -> Outcome>(
    spawn: &F,
    m: ManagerView,
    raw: ConfigView,
    eff: ConfigView,
    n: ManagerView,
) -> bool {
    exists|mid: ManagerView|
        {
            &&& #[trigger] ops_apply(
                spawn,
                ManagerView { load_error: None, probe_interval: raw.probe_interval, ..m },
                open_ops(starting(configured(eff, Seq::empty(), Seq::empty()))),
                eff,
                mid,
            )
            &&& n == (ManagerView { raw_config: raw, last_good: eff, ..mid })
        }
}

/// The first of `specs` with the label `label`.
pub open spec fn spec_labelled(specs: Seq<WindowSpecView>, label: Seq<char>) -> Option<
    WindowSpecView,
>
    decreases specs.len(),
{
    if specs.len() == 0 {
        None
    } else if specs[0].label == label {
        Some(specs[0])
    } else {
        spec_labelled(specs.skip(1), label)
    }
}

/// Whether the window labelled `label` can be reopened: it is configured, and
/// not live.
pub open spec fn reopenable(m: ManagerView, label: Seq<char>) -> bool {
    !is_live(m, label) && spec_labelled(current_specs(m), label) is Some
}

/// Whether reopening a window may lead from `m` to `n`.
pub open spec fn reopening<F: Fn(&Ask) -> Outcome>(
    spawn: &F,
    m: ManagerView,
    label: Seq<char>,
    n: ManagerView,
) -> bool {
    if reopenable(m, label) {
        let s = spec_labelled(current_specs(m), label)->0;
        exists|w: WindowStateView|
            {
                &&& #[trigger] builds(spawn, s, w)
                &&& n == (ManagerView {
                    last_closed: without(m.last_closed, label),
                    ..opened(m, s, w)
                })
            }
    } else {
        n == m
    }
}

/// The manager after every window's chrome got a new snapshot: `ds` holds
/// them, in window order.
pub open spec fn refreshed(m: ManagerView, ds: Seq<InitDtoView>) -> ManagerView {
    ManagerView {
        outbox: m.outbox + ds.map_values(|d: InitDtoView| EffectView::Refresh(d)),
        ..m
    }
}

/// Whether `ds` are snapshots of the first `n` windows.
pub open spec fn are_snapshots(ds: Seq<InitDtoView>, m: ManagerView, n: int) -> bool {
    &&& ds.len() == n
    &&& forall|i: int|
        0 <= i < n ==> is_snapshot(
            #[trigger] ds[i],
            m.windows[i],
            known_of(m.presence, m.windows[i].label),
            m.last_good,
            m.windows[i].spawn_error,
        )
}

/// Apply the tab changes of a reload to one window's registry. A tab that is
/// popped out is left alone: its placeholder is what it returns to.
pub fn apply_tab_reconcile<F: Fn(&Ask) -> Outcome>(
    registry: &mut Registry,
    remove_tabs: &Vec<String>,
    add_tabs: &Vec<TabPlan>,
    respawn_tabs: &Vec<TabPlan>,
    spawn: &F,
)
    requires
        can_ask(spawn),
    ensures
        reconciling(
            spawn,
            old(registry)@,
            views(remove_tabs@),
            plan_views(add_tabs@),
            plan_views(respawn_tabs@),
            final(registry)@,
        ),
{
    let ghost v0 = registry@;
    let ghost rv = views(remove_tabs@);
    let mut i: usize = 0;
    assert(rv.take(0) =~= Seq::empty());
    while i < remove_tabs.len()
        invariant
            i <= remove_tabs.len(),
            rv == views(remove_tabs@),
            registry@ == removals(v0, rv.take(i as int)),
        decreases remove_tabs.len() - i,
    {
        assert(rv.take(i + 1).drop_last() =~= rv.take(i as int));
        assert(rv.take(i + 1).last() == remove_tabs@[i as int]@);
        if !registry.is_detached(remove_tabs[i].as_str()) {
            registry.remove(remove_tabs[i].as_str());
        }
        i = i + 1;
    }
    assert(rv.take(i as int) =~= rv);
    let ghost v1 = registry@;
    let ghost av = plan_views(add_tabs@);
    let ghost mut vs: Seq<RegistryView> = seq![v1];
    let mut j: usize = 0;
    while j < add_tabs.len()
        invariant
            j <= add_tabs.len(),
            av == plan_views(add_tabs@),
            can_ask(spawn),
            new_additions(spawn, vs, av.take(j as int)),
            vs[0] == v1,
            vs.last() == registry@,
        decreases add_tabs.len() - j,
    {
        let ghost mid = registry@;
        let ghost plan = av[j as int];
        assert(plan == add_tabs@[j as int]@);
        if !registry.is_detached(add_tabs[j].spec.id.as_str()) {
            let r: Result<(), SurfaceError> = registry.add(
                &add_tabs[j].spec,
                add_tabs[j].load_on_open,
                spawn,
            );
            assert(adding(spawn, mid, plan.spec, plan.load_on_open, registry@, r));
        }
        proof {
            let before = vs;
            vs = vs.push(registry@);
            assert forall|k: int| 0 <= k < j + 1 implies adding_one(
                spawn,
                vs[k],
                #[trigger] av.take(j + 1)[k],
                vs[k + 1],
            ) by {
                if k < j {
                    assert(av.take(j + 1)[k] == av.take(j as int)[k]);
                    assert(vs[k + 1] == before[k + 1]);
                }
            }
        }
        j = j + 1;
    }
    assert(av.take(j as int) =~= av);
    assert(new_additions(spawn, vs, av));
    let ghost v2 = registry@;
    assert(adding_new(spawn, removals(v0, rv), av, v2));
    let ghost pv = plan_views(respawn_tabs@);
    let ghost mut ws: Seq<RegistryView> = seq![v2];
    let mut k: usize = 0;
    while k < respawn_tabs.len()
        invariant
            k <= respawn_tabs.len(),
            pv == plan_views(respawn_tabs@),
            can_ask(spawn),
            respawns(spawn, ws, pv.take(k as int)),
            ws[0] == v2,
            ws.last() == registry@,
        decreases respawn_tabs.len() - k,
    {
        let ghost mid = registry@;
        let ghost plan = pv[k as int];
        assert(plan == respawn_tabs@[k as int]@);
        if !registry.is_detached(respawn_tabs[k].spec.id.as_str()) {
            registry.remove(respawn_tabs[k].spec.id.as_str());
            let r: Result<(), SurfaceError> = registry.add(
                &respawn_tabs[k].spec,
                respawn_tabs[k].load_on_open,
                spawn,
            );
            assert(adding(
                spawn,
                removed(mid, plan.spec.id),
                plan.spec,
                plan.load_on_open,
                registry@,
                r,
            ));
        }
        proof {
            let before = ws;
            ws = ws.push(registry@);
            assert forall|i: int| 0 <= i < k + 1 implies respawning_one(
                spawn,
                ws[i],
                #[trigger] pv.take(k + 1)[i],
                ws[i + 1],
            ) by {
                if i < k {
                    assert(pv.take(k + 1)[i] == pv.take(k as int)[i]);
                    assert(ws[i + 1] == before[i + 1]);
                }
            }
        }
        k = k + 1;
    }
    assert(pv.take(k as int) =~= pv);
    assert(respawns(spawn, ws, pv));
}

/// Whether one of `plans` is for tab `id`.
fn plans_hold(plans: &Vec<TabPlan>, id: &str) -> (r: bool)
    ensures
        r == plan_ids(plan_views(plans@)).contains(id@),
{
    let ghost ids = plan_ids(plan_views(plans@));
    let mut i: usize = 0;
    while i < plans.len()
        invariant
            i <= plans.len(),
            ids == plan_ids(plan_views(plans@)),
            forall|k: int| 0 <= k < i ==> #[trigger] ids[k] != id@,
        decreases plans.len() - i,
    {
        assert(ids[i as int] == plans@[i as int].spec.id@);
        if same(plans[i].spec.id.as_str(), id) {
            return true;
        }
        i = i + 1;
    }
    false
}

impl WindowManager {
    /// Build a window, add its tabs in order, and show the first. A tab that
    /// cannot be spawned stays cold; why is kept for the chrome.
    pub fn build_window<F: Fn(&Ask) -> Outcome>(
        &self,
        spec: &WindowSpec,
        spawn: &F,
    ) -> (r: WindowState)
        requires
            can_ask(spawn),
        ensures
            builds(spawn, spec@, r@),
    {
        let a: Ask = Ask::Window {
            label: spec.label.clone(),
            title: spec.title.clone(),
            width: spec.width,
            height: spec.height,
        };
        let o: Outcome = spawn(&a);
        proof {
            let asked = &a;
            assert(call_ensures(spawn, (asked,), o) && asked@ is Window);
        }
        let window: usize = match o {
            Ok(h) => h,
            Err(_) => unreached(),
        };
        assert(builds_window(spawn, spec@, window));
        let ghost v0 = new_registry(window);
        let ghost pv = plan_views(spec.tabs@);
        let mut registry: Registry = Registry::new(window, initial_rect());
        let mut lines: Vec<String> = Vec::new();
        let ghost mut vs: Seq<RegistryView> = seq![v0];
        let ghost mut rs: Seq<Result<(), SurfaceError>> = Seq::empty();
        let mut i: usize = 0;
        assert(views(lines@) =~= failure_lines(pv, rs));
        while i < spec.tabs.len()
            invariant
                i <= spec.tabs.len(),
                pv == plan_views(spec.tabs@),
                can_ask(spawn),
                additions(spawn, vs, pv.take(i as int), rs),
                vs[0] == v0,
                vs.last() == registry@,
                views(lines@) == failure_lines(pv, rs),
            decreases spec.tabs.len() - i,
        {
            let ghost mid = registry@;
            let ghost before = lines@;
            let ghost plan = pv[i as int];
            assert(plan == spec.tabs@[i as int]@);
            let t: &TabPlan = &spec.tabs[i];
            let r: Result<(), SurfaceError> = registry.add(&t.spec, t.load_on_open, spawn);
            match r {
                Ok(_) => {},
                Err(e) => {
                    lines.push(failure(t.spec.title.as_str(), e));
                    assert(views(lines@) =~= views(before).push(lines@.last()@));
                },
            }
            proof {
                let vs0 = vs;
                let rs0 = rs;
                vs = vs.push(registry@);
                rs = rs.push(r);
                assert(rs.drop_last() =~= rs0);
                assert forall|k: int| 0 <= k < i + 1 implies adding(
                    spawn,
                    vs[k],
                    (#[trigger] pv.take(i + 1)[k]).spec,
                    pv.take(i + 1)[k].load_on_open,
                    vs[k + 1],
                    rs[k],
                ) by {
                    if k < i {
                        assert(pv.take(i + 1)[k] == pv.take(i as int)[k]);
                        assert(vs[k + 1] == vs0[k + 1]);
                    }
                }
            }
            i = i + 1;
        }
        assert(pv.take(i as int) =~= pv);
        let ghost mid = registry@;
        let ghost before = views(lines@);
        if spec.tabs.len() > 0 {
            let first: &TabPlan = &spec.tabs[0];
            assert(pv[0] == spec.tabs@[0]@);
            let r: Result<bool, SurfaceError> = registry.activate(first.spec.id.as_str(), spawn);
            match r {
                Ok(_) => {},
                Err(e) => {
                    let line: String = failure(first.spec.title.as_str(), e);
                    if !holds(&lines, line.as_str()) {
                        let ghost l0 = lines@;
                        lines.push(line);
                        assert(views(lines@) =~= views(l0).push(lines@.last()@));
                    }
                },
            }
            assert(activation(spawn, mid, pv[0].spec.id, registry@, r));
        }
        assert(showing_first(spawn, mid, pv, before, registry@, views(lines@)));
        let r = WindowState {
            label: spec.label.clone(),
            title: spec.title.clone(),
            colour: spec.colour.clone(),
            spawn_error: failures(&lines),
            registry,
        };
        assert(adding_all(spawn, new_registry(window), spec@.tabs, mid, before));
        assert(showing_first(spawn, mid, spec@.tabs, before, r@.registry, views(lines@)));
        assert(fills(spawn, spec@, window, r@));
        r
    }

    /// Put a window among the others.
    fn insert_window(&mut self, w: WindowState) -> (r: usize)
        ensures
            final(self)@ == (ManagerView {
                windows: put_window(old(self)@.windows, w@),
                ..old(self)@
            }),
            r < final(self)@.windows.len(),
            final(self)@.windows[r as int] == w@,
            forall|x: WindowStateView|
                x.label == w@.label ==> put_window(old(self)@.windows, x)
                    == #[trigger] final(self)@.windows.update(r as int, x),
    {
        match self.find_window(w.label.as_str()) {
            Some(i) => {
                self.windows.set(i, w);
                assert(self@.windows =~= old(self)@.windows.update(i as int, w@));
                assert forall|x: WindowStateView| x.label == w@.label implies put_window(
                    old(self)@.windows,
                    x,
                ) == #[trigger] self@.windows.update(i as int, x) by {
                    assert(old(self)@.windows.update(i as int, x) =~= self@.windows.update(
                        i as int,
                        x,
                    ));
                }
                i
            },
            None => {
                proof {
                    lemma_rank(labels_of(self@.windows), w@.label);
                }
                let n: usize = self.windows.len();
                self.windows.push(w);
                assert(self@.windows =~= old(self)@.windows.push(w@));
                assert forall|x: WindowStateView| x.label == w@.label implies put_window(
                    old(self)@.windows,
                    x,
                ) == #[trigger] self@.windows.update(n as int, x) by {
                    assert(old(self)@.windows.push(x) =~= self@.windows.update(n as int, x));
                }
                n
            },
        }
    }

    /// Open a window of the given spec.
    fn open<F: Fn(&Ask) -> Outcome>(&mut self, spec: &WindowSpec, spawn: &F)
        requires
            can_ask(spawn),
        ensures
            exists|w: WindowStateView|
                #[trigger] builds(spawn, spec@, w) && final(self)@ == opened(
                    old(self)@,
                    spec@,
                    w,
                ),
    {
        let ghost m0 = self@;
        let state: WindowState = self.build_window(spec, spawn);
        let ghost w = state@;
        let i: usize = self.insert_window(state);
        self.settle(i);
        self.put_name(spec.title.as_str(), spec.label.as_str());
        proof {
            let quiet = WindowStateView {
                registry: RegistryView { outbox: Seq::empty(), ..w.registry },
                ..w
            };
            assert(self@.windows == put_window(m0.windows, quiet));
            assert(builds(spawn, spec@, w));
            assert(self@ == opened(m0, spec@, w));
        }
    }

    /// Drop a window: its terminals end. The window itself is gone already, or
    /// is closed by the caller.
    pub fn remove_window(&mut self, label: &str)
        ensures
            final(self)@ == window_removed(old(self)@, label@),
    {
        let ghost m0 = self@;
        match self.find_window(label) {
            None => {},
            Some(i) => {
                self.windows[i].registry.close_all();
                let ghost m1 = self@;
                assert(m1.windows =~= m0.windows.update(
                    i as int,
                    WindowStateView {
                        registry: emptied(m0.windows[i as int].registry),
                        ..m0.windows[i as int]
                    },
                ));
                self.settle(i);
                let ghost m2 = self@;
                assert(m2.windows.len() == self.windows@.len());
                assert(m2.windows.remove(i as int) =~= m0.windows.remove(i as int));
                let ghost rest = self.windows@.remove(i as int);
                assert(state_views(rest) =~= m2.windows.remove(i as int));
                let _ = self.windows.remove(i);
                assert(self@.windows =~= m0.windows.remove(i as int));
                self.drop_names(label);
            },
        }
    }

    /// The window labelled `label` was destroyed: remember that it was closed
    /// last, and drop it.
    pub fn window_destroyed(&mut self, label: &str)
        ensures
            final(self)@ == window_gone(old(self)@, label@),
    {
        let ghost m0 = self@;
        self.drop_closed(label);
        let ghost before = self.last_closed@;
        self.last_closed.push(owned(label));
        assert(views(self.last_closed@) =~= views(before).push(label@));
        assert(self@ == (ManagerView {
            last_closed: without(m0.last_closed, label@).push(label@),
            ..m0
        }));
        self.remove_window(label);
    }

    /// Close a window that is no longer configured.
    fn close(&mut self, label: &str)
        ensures
            final(self)@ == window_closed(old(self)@, label@),
    {
        if self.find_window(label).is_some() {
            self.remove_window(label);
            self.push_effect(Effect::CloseWindow(owned(label)));
        }
    }

    /// Give every window's chrome a new snapshot.
    pub fn refresh_all_chrome(&mut self)
        ensures
            exists|ds: Seq<InitDtoView>|
                {
                    &&& are_snapshots(ds, old(self)@, old(self)@.windows.len() as int)
                    &&& final(self)@ == #[trigger] refreshed(old(self)@, ds)
                },
    {
        let ghost m0 = self@;
        let ghost mut ds: Seq<InitDtoView> = Seq::empty();
        let mut i: usize = 0;
        let n: usize = self.windows.len();
        assert(self@ =~= refreshed(m0, ds));
        while i < n
            invariant
                i <= n,
                n == m0.windows.len(),
                are_snapshots(ds, m0, i as int),
                self@ == refreshed(m0, ds),
            decreases n - i,
        {
            assert(self@.windows[i as int] == self.windows@[i as int]@);
            let dto: InitDto = self.snapshot(
                i,
                &self.last_good,
                copy_opt(&self.windows[i].spawn_error),
            );
            let ghost d = dto@;
            let ghost before = ds;
            self.push_effect(Effect::Refresh(dto));
            proof {
                ds = ds.push(d);
                assert(ds.map_values(|d: InitDtoView| EffectView::Refresh(d)) =~= before.map_values(
                    |d: InitDtoView| EffectView::Refresh(d),
                ).push(EffectView::Refresh(d)));
                assert(self@.outbox =~= refreshed(m0, ds).outbox);
            }
            i = i + 1;
        }
    }
}

/// Apply an update to one window's registry: the tab changes, new metadata,
/// the order, and the tab that was shown again where it was spawned anew.
fn update_registry<F: Fn(&Ask) -> Outcome>(
    registry: &mut Registry,
    remove_tabs: &Vec<String>,
    add_tabs: &Vec<TabPlan>,
    respawn_tabs: &Vec<TabPlan>,
    set_meta: &Vec<MetaPlan>,
    order: &Vec<String>,
    spawn: &F,
)
    requires
        can_ask(spawn),
    ensures
        forall|u: TabUpdateView|
            {
                &&& u.remove_tabs == views(remove_tabs@)
                &&& u.add_tabs == plan_views(add_tabs@)
                &&& u.respawn_tabs == plan_views(respawn_tabs@)
                &&& u.set_meta == meta_plan_views(set_meta@)
                &&& u.order == views(order@)
            } ==> #[trigger] updating(spawn, old(registry)@, u, final(registry)@),
{
    let ghost v0 = registry@;
    let shown: Option<String> = registry.active_tab();
    apply_tab_reconcile(registry, remove_tabs, add_tabs, respawn_tabs, spawn);
    let ghost mid = registry@;
    let ghost mv = meta_plan_views(set_meta@);
    let mut i: usize = 0;
    assert(mv.take(0) =~= Seq::empty());
    while i < set_meta.len()
        invariant
            i <= set_meta.len(),
            mv == meta_plan_views(set_meta@),
            registry@ == metas(mid, mv.take(i as int)),
        decreases set_meta.len() - i,
    {
        assert(mv.take(i + 1).drop_last() =~= mv.take(i as int));
        assert(mv.take(i + 1).last() == set_meta@[i as int]@);
        let m: &MetaPlan = &set_meta[i];
        registry.set_meta(m.id.as_str(), &m.meta, m.tree, copy_list(&m.tree_path));
        i = i + 1;
    }
    assert(mv.take(i as int) =~= mv);
    registry.reorder(order);
    let ghost sorted = registry@;
    match &shown {
        Some(a) => {
            if plans_hold(respawn_tabs, a.as_str()) {
                let r: Result<bool, SurfaceError> = registry.activate(a.as_str(), spawn);
                assert(activation(spawn, sorted, a@, registry@, r));
            }
        },
        None => {},
    }
    assert(reshowing(spawn, sorted, v0.active, plan_views(respawn_tabs@), registry@));
    assert forall|u: TabUpdateView|
        {
            &&& u.remove_tabs == views(remove_tabs@)
            &&& u.add_tabs == plan_views(add_tabs@)
            &&& u.respawn_tabs == plan_views(respawn_tabs@)
            &&& u.set_meta == meta_plan_views(set_meta@)
            &&& u.order == views(order@)
        } implies #[trigger] updating(spawn, v0, u, registry@) by {
        assert(reconciling(spawn, v0, u.remove_tabs, u.add_tabs, u.respawn_tabs, mid));
    }
}

impl WindowManager {
    /// Apply an update to the window labelled `label`, and give its chrome a
    /// new snapshot. An update that changes nothing is skipped.
    fn update<F: Fn(&Ask) -> Outcome>(
        &mut self,
        op: &WindowOp,
        c: &Config,
        spawn: &F,
    )
        requires
            can_ask(spawn),
            op@ is Update,
        ensures
            op_applies(spawn, old(self)@, op@, c@, final(self)@),
    {
        let ghost m0 = self@;
        if let WindowOp::Update {
            label,
            colour,
            add_tabs,
            remove_tabs,
            order,
            set_meta,
            respawn_tabs,
        } = op {
            let ghost u = op@->Update_0;
            if let Some(i) = self.find_window(label.as_str()) {
                let ghost v0 = m0.windows[i as int].registry;
                let current: Vec<String> = self.windows[i].registry.tab_ids();
                let same_order: bool = same_list(order, &current);
                if colour.is_none() && add_tabs.len() == 0 && remove_tabs.len() == 0 && same_order
                    && set_meta.len() == 0 && respawn_tabs.len() == 0 {
                    return;
                }
                match colour {
                    Some(k) => {
                        self.windows[i].colour = k.clone();
                    },
                    None => {},
                }
                let ghost m1 = self@;
                assert(m1.windows =~= recoloured(m0, i as int, u.colour).windows);
                update_registry(
                    &mut self.windows[i].registry,
                    remove_tabs,
                    add_tabs,
                    respawn_tabs,
                    set_meta,
                    order,
                    spawn,
                );
                let ghost v = self@.windows[i as int].registry;
                assert(self@.windows[i as int] == self.windows@[i as int]@);
                assert(m1.windows[i as int].registry == v0);
                assert(updating(spawn, v0, u, v));
                assert(self@.windows =~= m1.windows.update(
                    i as int,
                    WindowStateView { registry: v, ..m1.windows[i as int] },
                ));
                self.settle(i);
                assert(self@.windows =~= settled(m1, i as int, v).windows);
                let ghost m2 = self@;
                assert(m2 == settled(recoloured(m0, i as int, u.colour), i as int, v));
                let dto: InitDto = self.snapshot(i, c, None);
                let ghost d = dto@;
                assert(m2.windows[i as int].label == m0.windows[i as int].label);
                self.push_effect(Effect::Refresh(dto));
                assert(self@ == updated(m0, i as int, u.colour, v, d));
            }
        }
    }

    /// Carry out one operation.
    fn apply_op<F: Fn(&Ask) -> Outcome>(
        &mut self,
        op: &WindowOp,
        c: &Config,
        spawn: &F,
    )
        requires
            can_ask(spawn),
        ensures
            op_applies(spawn, old(self)@, op@, c@, final(self)@),
    {
        match op {
            WindowOp::Open(spec) => {
                self.open(spec, spawn);
            },
            WindowOp::Close(label) => {
                self.close(label.as_str());
            },
            WindowOp::Update { .. } => {
                self.update(op, c, spawn);
            },
        }
    }

    /// Carry out operations, one after the other.
    fn apply_ops<F: Fn(&Ask) -> Outcome>(
        &mut self,
        ops: &Vec<WindowOp>,
        c: &Config,
        spawn: &F,
    )
        requires
            can_ask(spawn),
        ensures
            ops_apply(spawn, old(self)@, op_views(ops@), c@, final(self)@),
    {
        let ghost m0 = self@;
        let ghost ov = op_views(ops@);
        let ghost mut ms: Seq<ManagerView> = seq![m0];
        let mut i: usize = 0;
        while i < ops.len()
            invariant
                i <= ops.len(),
                ov == op_views(ops@),
                can_ask(spawn),
                operations(spawn, ms, ov.take(i as int), c@),
                ms[0] == m0,
                ms.last() == self@,
            decreases ops.len() - i,
        {
            assert(ov[i as int] == ops@[i as int]@);
            self.apply_op(&ops[i], c, spawn);
            proof {
                let before = ms;
                ms = ms.push(self@);
                assert forall|k: int| 0 <= k < i + 1 implies op_applies(
                    spawn,
                    ms[k],
                    #[trigger] ov.take(i + 1)[k],
                    c@,
                    ms[k + 1],
                ) by {
                    if k < i {
                        assert(ov.take(i + 1)[k] == ov.take(i as int)[k]);
                        assert(ms[k + 1] == before[k + 1]);
                    }
                }
            }
            i = i + 1;
        }
        assert(ov.take(i as int) =~= ov);
        assert(operations(spawn, ms, ov, c@));
    }

    /// Bring the live windows in line with a reloaded configuration. `new` is
    /// that configuration, with its projects as tabs.
    pub fn apply<F: Fn(&Ask) -> Outcome>(
        &mut self,
        recon: &Reconciliation,
        new: &Config,
        spawn: &F,
    )
        requires
            can_ask(spawn),
        ensures
            applying(spawn, old(self)@, recon@, new@, final(self)@),
    {
        let taken: Vec<String> = self.taken_labels();
        let ops: Vec<WindowOp> = reconcile_ops(recon, new, &self.names, &taken);
        self.apply_ops(&ops, new, spawn);
    }

    /// Open every window that opens on start, from a configuration whose
    /// projects are tabs already. `config` is the same as it was written.
    pub fn materialize_effective<F: Fn(&Ask) -> Outcome>(
        &mut self,
        config: Config,
        effective: Config,
        spawn: &F,
    )
        requires
            can_ask(spawn),
        ensures
            materializing(spawn, old(self)@, config@, effective@, final(self)@),
    {
        let ghost m0 = self@;
        self.load_error = None;
        self.set_probe_interval(config.probe_interval);
        let specs: Vec<WindowSpec> = window_specs(&effective);
        let ghost sv = spec_views(specs@);
        let mut ops: Vec<WindowOp> = Vec::new();
        let ghost mut n: int = 0;
        assert(op_views(ops@) =~= open_ops(starting(sv.take(0))));
        for s in it: specs.into_iter()
            invariant
                sv == spec_views(it.seq()),
                n == it.index(),
                op_views(ops@) == open_ops(starting(sv.take(n))),
        {
            let ghost before = ops@;
            assert(sv.take(n + 1).drop_last() =~= sv.take(n));
            assert(sv.take(n + 1).last() == s@);
            if s.open_on_start {
                let ghost sview = s@;
                ops.push(WindowOp::Open(s));
                assert(op_views(ops@) =~= op_views(before).push(WindowOpView::Open(sview)));
                assert(open_ops(starting(sv.take(n)).push(sview)) =~= open_ops(
                    starting(sv.take(n)),
                ).push(WindowOpView::Open(sview)));
            }
            proof {
                n = n + 1;
            }
        }
        assert(sv.take(n) =~= sv);
        self.apply_ops(&ops, &effective, spawn);
        let ghost mid = self@;
        assert(ops_apply(
            spawn,
            ManagerView { load_error: None, probe_interval: config@.probe_interval, ..m0 },
            open_ops(starting(configured(effective@, Seq::empty(), Seq::empty()))),
            effective@,
            mid,
        ));
        self.raw_config = config;
        self.last_good = effective;
    }

    /// Open every window that opens on start. `projects` holds the paths found
    /// under each root of each window.
    pub fn materialize<F: Fn(&Ask) -> Outcome>(
        &mut self,
        config: Config,
        projects: &Vec<Vec<Vec<String>>>,
        spawn: &F,
    )
        requires
            can_ask(spawn),
        ensures
            materializing(
                spawn,
                old(self)@,
                config@,
                effective(config@, projects@),
                final(self)@,
            ),
    {
        let eff: Config = effective_config(&config, projects);
        self.materialize_effective(config, eff, spawn);
    }

    /// Rebuild a closed window from its configuration. Returns whether it was:
    /// a window that is live or no longer configured is not.
    pub fn reopen_window<F: Fn(&Ask) -> Outcome>(
        &mut self,
        label: &str,
        spawn: &F,
    ) -> (r: bool)
        requires
            can_ask(spawn),
        ensures
            r == reopenable(old(self)@, label@),
            reopening(spawn, old(self)@, label@, final(self)@),
    {
        if self.find_window(label).is_some() {
            return false;
        }
        let specs: Vec<WindowSpec> = self.configured_specs();
        let ghost sv = spec_views(specs@);
        let ghost m0 = self@;
        let mut i: usize = 0;
        assert(sv.skip(0) =~= sv);
        while i < specs.len()
            invariant
                i <= specs.len(),
                m0 == old(self)@,
                self@ == m0,
                !is_live(m0, label@),
                sv == spec_views(specs@),
                sv == current_specs(m0),
                can_ask(spawn),
                spec_labelled(sv, label@) == spec_labelled(sv.skip(i as int), label@),
            decreases specs.len() - i,
        {
            assert(sv.skip(i as int)[0] == specs@[i as int]@);
            assert(sv.skip(i as int).skip(1) =~= sv.skip(i + 1));
            if same(specs[i].label.as_str(), label) {
                self.open(&specs[i], spawn);
                self.drop_closed(label);
                return true;
            }
            i = i + 1;
        }
        false
    }

    /// Reopen the window that was closed last and can be. Returns whether one
    /// was.
    pub fn reopen_last<F: Fn(&Ask) -> Outcome>(&mut self, spawn: &F) -> (r:
        bool)
        requires
            can_ask(spawn),
        ensures
            match next_reopen(old(self)@) {
                Some(l) => r == reopenable(old(self)@, l) && reopening(
                    spawn,
                    old(self)@,
                    l,
                    final(self)@,
                ),
                None => !r && final(self)@ == old(self)@,
            },
    {
        match self.reopen_target() {
            Some(label) => self.reopen_window(label.as_str(), spawn),
            None => false,
        }
    }

    /// Open a window from a menu or from the home surface: raise it where it
    /// is live, reopen it where it is not.
    pub fn open_window<F: Fn(&Ask) -> Outcome>(
        &mut self,
        label: &str,
        spawn: &F,
    )
        requires
            can_ask(spawn),
        ensures
            if is_live(old(self)@, label@) {
                final(self)@ == with_effect(old(self)@, EffectView::FocusWindow(label@))
            } else {
                reopening(spawn, old(self)@, label@, final(self)@)
            },
    {
        if self.find_window(label).is_some() {
            self.focus_window(label);
        } else {
            let _ = self.reopen_window(label, spawn);
        }
    }
}

/// Whether loading a configuration anew may lead from `m` to `n`. Without any
/// window configured before, it is as at the start; otherwise the windows are
/// brought in line with it, and all get a new snapshot where a setting that
/// they share changed.
pub open spec fn reloading<F: Fn(&Ask) -> Outcome>(
    spawn: &F,
    m: ManagerView,
    raw: ConfigView,
    eff: ConfigView,
    n: ManagerView,
) -> bool {
    let clear = ManagerView { load_error: None, ..m };
    if m.last_good.windows.len() == 0 {
        materializing(spawn, clear, raw, eff, n)
    } else {
        exists|mid: ManagerView|
            {
                &&& #[trigger] applying(spawn, clear, difference(m.last_good, eff), eff, mid)
                &&& restyling(
                    ManagerView { last_good: eff, raw_config: raw, ..mid },
                    m.last_good.density != raw.density || m.last_good.sidebar_drag
                        != raw.sidebar_drag,
                    raw.probe_interval,
                    n,
                )
            }
    }
}

/// Whether a new search of the roots, with the outcome `fresh`, may lead from
/// `m` to `n`.
pub open spec fn rescanning<F: Fn(&Ask) -> Outcome>(
    spawn: &F,
    m: ManagerView,
    fresh: ConfigView,
    n: ManagerView,
) -> bool {
    exists|mid: ManagerView|
        {
            &&& #[trigger] applying(spawn, m, difference(m.last_good, fresh), fresh, mid)
            &&& n == (ManagerView { last_good: fresh, ..mid })
        }
}

/// What a configuration that could not be loaded comes to.
pub open spec fn load_noted(m: ManagerView, message: Seq<char>) -> ManagerView {
    let noted = ManagerView { load_error: Some(message), ..m };
    if m.windows.len() == 0 && m.detached.len() == 0 {
        noted
    } else {
        with_effect(noted, EffectView::Error { window: None, message })
    }
}

/// Whether giving all windows a new snapshot, where asked to, may lead from
/// `m` to `n`, which looks at sessions every `secs` seconds.
pub open spec fn restyling(m: ManagerView, all: bool, secs: u64, n: ManagerView) -> bool {
    if all {
        exists|ds: Seq<InitDtoView>|
            {
                &&& are_snapshots(ds, m, m.windows.len() as int)
                &&& n == (ManagerView { probe_interval: secs, ..#[trigger] refreshed(m, ds) })
            }
    } else {
        n == (ManagerView { probe_interval: secs, ..m })
    }
}

impl WindowManager {
    /// A changed configuration loaded: bring everything in line with it, take
    /// down what was said of an earlier one, and look at every window anew.
    /// `effective` is the configuration with its projects as tabs.
    pub fn reload<F: Fn(&Ask) -> Outcome>(
        &mut self,
        config: Config,
        effective: Config,
        q: &mut BumpQueue,
        spawn: &F,
    )
        requires
            can_ask(spawn),
        ensures
            exists|mid: ManagerView|
                {
                    &&& #[trigger] reloading(spawn, old(self)@, config@, effective@, mid)
                    &&& final(self)@ == with_effect(mid, EffectView::ErrorClear)
                },
            final(q)@ == queued_all(old(q)@, labels_of(final(self)@.windows)),
    {
        self.bring_in_line(config, effective, spawn);
        self.push_effect(Effect::ErrorClear);
        let labels: Vec<String> = self.taken_labels();
        bump_all(q, &labels);
    }

    /// Bring everything in line with a configuration that changed.
    fn bring_in_line<F: Fn(&Ask) -> Outcome>(
        &mut self,
        config: Config,
        effective: Config,
        spawn: &F,
    )
        requires
            can_ask(spawn),
        ensures
            reloading(spawn, old(self)@, config@, effective@, final(self)@),
    {
        let ghost m0 = self@;
        self.load_error = None;
        let secs: u64 = config.probe_interval;
        if self.last_good.windows.len() == 0 {
            assert(m0.last_good.windows.len() == 0);
            self.materialize_effective(config, effective, spawn);
        } else {
            assert(m0.last_good.windows.len() > 0);
            let restyle: bool = self.last_good.density != config.density
                || self.last_good.sidebar_drag != config.sidebar_drag;
            let recon: Reconciliation = reconcile(&self.last_good, &effective);
            self.apply(&recon, &effective, spawn);
            let ghost mid = self@;
            assert(applying(
                spawn,
                ManagerView { load_error: None, ..m0 },
                difference(m0.last_good, effective@),
                effective@,
                mid,
            ));
            self.last_good = effective;
            self.raw_config = config;
            let ghost m1 = self@;
            if restyle {
                self.refresh_all_chrome();
                let ghost ds = choose|ds: Seq<InitDtoView>|
                    {
                        &&& are_snapshots(ds, m1, m1.windows.len() as int)
                        &&& self@ == #[trigger] refreshed(m1, ds)
                    };
                self.set_probe_interval(secs);
                assert(self@ == (ManagerView { probe_interval: secs, ..refreshed(m1, ds) }));
            } else {
                self.set_probe_interval(secs);
            }
            assert(restyling(m1, restyle, secs, self@));
        }
    }

    /// Search the roots anew, bring the windows in line with what is there,
    /// and look at every window anew.
    pub fn rescan_root<F: Fn(&Ask) -> Outcome>(
        &mut self,
        projects: &Vec<Vec<Vec<String>>>,
        q: &mut BumpQueue,
        spawn: &F,
    )
        requires
            can_ask(spawn),
        ensures
            rescanning(
                spawn,
                old(self)@,
                effective(old(self)@.raw_config, projects@),
                final(self)@,
            ),
            final(q)@ == queued_all(old(q)@, labels_of(final(self)@.windows)),
    {
        let fresh: Config = effective_config(&self.raw_config, projects);
        let recon: Reconciliation = reconcile(&self.last_good, &fresh);
        self.apply(&recon, &fresh, spawn);
        self.last_good = fresh;
        let labels: Vec<String> = self.taken_labels();
        bump_all(q, &labels);
    }

    /// A changed configuration did not load: keep the one in force, remember
    /// why, and say so in the windows, if there are any.
    pub fn load_failed(&mut self, message: String)
        ensures
            final(self)@ == ({
                let noted = ManagerView { load_error: Some(message@), ..old(self)@ };
                if old(self)@.windows.len() == 0 && old(self)@.detached.len() == 0 {
                    noted
                } else {
                    with_effect(
                        noted,
                        EffectView::Error { window: None, message: message@ },
                    )
                }
            }),
            final(self)@ == load_noted(old(self)@, message@),
    {
        self.load_error = Some(message.clone());
        if !self.is_empty() {
            self.push_effect(Effect::Error { window: None, message });
        }
    }
}

} // verus!
