//! What a reload does to the tabs of a window: it brings them in line with the
//! new configuration.

use crate::lifecycle::{
    adding_new, adding_one, metas, new_additions, plan_ids, reconciling, removals, reshowing,
    respawning, respawning_one, respawns, updating,
};
use crate::manager::lemma_rank;
use crate::manager_laws::{law_activating_ends_no_terminal, lemma_adding, tab_ids};
use crate::model::{RootView, TabView, WindowView};
use crate::plan::{
    plan_of, plans_of, roots_titled, update_op, MetaPlanView, TabPlanView, TabUpdateView,
};
use crate::reconcile::{
    changed_meta, changes, first_keyed, keys_of, lemma_first_keyed, meta_of, needs_respawn,
    respawned, tabs_not_in,
};
use crate::reconcile_laws::{law_tabs_are_accounted_for, lemma_tabs_not_in};
use crate::registry::{
    activation, adding, known, lemma_position, popped_out, position, rank, removed, reordered,
    with_meta, Ask, Outcome, RegistryView, TabEntryView,
};
use crate::registry_laws::law_reorder_is_a_sorted_permutation;
use crate::resolve::has_key;
use crate::resolve_laws::distinct_keys;
use crate::surface::SurfaceError;
use vstd::prelude::*;

verus! {

/// Whether tabs stand as a configuration lists them: first those that it
/// lists, in its order, and after them none but tabs that are popped out.
pub open spec fn in_line(tabs: Seq<TabEntryView>, keys: Seq<Seq<char>>) -> bool {
    &&& tab_ids(tabs).no_duplicates()
    &&& keys.len() <= tabs.len()
    &&& tab_ids(tabs).take(keys.len() as int) == keys
    &&& forall|i: int|
        keys.len() <= i < tabs.len() ==> (#[trigger] tabs[i]).primary.slot is Detached
}

/// Whether two registries hold the same tabs, in whatever order, and have the
/// same ones popped out.
spec fn alike(a: Seq<TabEntryView>, b: Seq<TabEntryView>) -> bool {
    &&& forall|x: Seq<char>| #[trigger] tab_ids(a).contains(x) == tab_ids(b).contains(x)
    &&& forall|x: Seq<char>| #[trigger] popped_out(a, x) == popped_out(b, x)
}

proof fn lemma_removed(v: RegistryView, id: Seq<char>)
    requires
        tab_ids(v.tabs).no_duplicates(),
    ensures
        tab_ids(removed(v, id).tabs).no_duplicates(),
        forall|x: Seq<char>| #[trigger]
            tab_ids(removed(v, id).tabs).contains(x) == (tab_ids(v.tabs).contains(x) && x != id),
        forall|x: Seq<char>| #[trigger]
            popped_out(removed(v, id).tabs, x) == (popped_out(v.tabs, x) && x != id),
{
    let a = v.tabs;
    let b = removed(v, id).tabs;
    lemma_position(a, id);
    if known(a, id) {
        let p = position(a, id);
        assert(tab_ids(b) =~= tab_ids(a).remove(p));
        assert forall|x: Seq<char>| #[trigger]
            tab_ids(b).contains(x) == (tab_ids(a).contains(x) && x != id) by {
            if tab_ids(b).contains(x) {
                let k = choose|k: int| 0 <= k < b.len() && tab_ids(b)[k] == x;
                let j = if k < p {
                    k
                } else {
                    k + 1
                };
                assert(tab_ids(a)[j] == x);
                assert(tab_ids(a)[p] == id);
            }
            if tab_ids(a).contains(x) && x != id {
                let j = choose|j: int| 0 <= j < a.len() && tab_ids(a)[j] == x;
                assert(j != p);
                let k = if j < p {
                    j
                } else {
                    j - 1
                };
                assert(tab_ids(b)[k] == x);
            }
        }
        assert forall|x: Seq<char>| #[trigger] popped_out(b, x) == (popped_out(a, x) && x != id) by {
            if popped_out(b, x) {
                let k = choose|k: int|
                    0 <= k < b.len() && (#[trigger] b[k]).id == x && b[k].primary.slot is Detached;
                let j = if k < p {
                    k
                } else {
                    k + 1
                };
                assert(a[j] == b[k]);
                assert(tab_ids(a)[j] == x);
                assert(tab_ids(a)[p] == id);
            }
            if popped_out(a, x) && x != id {
                let j = choose|j: int|
                    0 <= j < a.len() && (#[trigger] a[j]).id == x && a[j].primary.slot is Detached;
                let k = if j < p {
                    j
                } else {
                    j - 1
                };
                assert(b[k] == a[j]);
            }
        }
    } else {
        assert forall|x: Seq<char>| #[trigger] tab_ids(a).contains(x) implies x != id by {
            let j = choose|j: int| 0 <= j < a.len() && tab_ids(a)[j] == x;
            assert(a[j].id == x);
        }
        assert forall|x: Seq<char>| #[trigger] popped_out(a, x) implies x != id by {
            let j = choose|j: int|
                0 <= j < a.len() && (#[trigger] a[j]).id == x && a[j].primary.slot is Detached;
            assert(a[j].id == x);
        }
    }
}

proof fn lemma_removals(v: RegistryView, ids: Seq<Seq<char>>)
    requires
        tab_ids(v.tabs).no_duplicates(),
    ensures
        tab_ids(removals(v, ids).tabs).no_duplicates(),
        forall|x: Seq<char>| #[trigger]
            tab_ids(removals(v, ids).tabs).contains(x) == (tab_ids(v.tabs).contains(x) && (
            !ids.contains(x) || popped_out(v.tabs, x))),
        forall|x: Seq<char>| #[trigger]
            popped_out(removals(v, ids).tabs, x) == popped_out(v.tabs, x),
    decreases ids.len(),
{
    if ids.len() > 0 {
        let rest = ids.drop_last();
        lemma_removals(v, rest);
        let before = removals(v, rest);
        assert forall|x: Seq<char>| ids.contains(x) == (rest.contains(x) || x == ids.last()) by {
            if ids.contains(x) {
                let k = choose|k: int| 0 <= k < ids.len() && ids[k] == x;
                if k < rest.len() {
                    assert(rest[k] == x);
                }
            }
            if rest.contains(x) {
                let k = choose|k: int| 0 <= k < rest.len() && rest[k] == x;
                assert(ids[k] == x);
            }
            if x == ids.last() {
                assert(ids[ids.len() - 1] == x);
            }
        }
        if !popped_out(before.tabs, ids.last()) {
            lemma_removed(before, ids.last());
        }
    }
}

proof fn lemma_appended<F: Fn(&Ask) -> Outcome>(
    spawn: &F,
    v: RegistryView,
    plan: TabPlanView,
    w: RegistryView,
    r: Result<(), SurfaceError>,
)
    requires
        adding(spawn, v, plan.spec, plan.load_on_open, w, r),
        tab_ids(v.tabs).no_duplicates(),
        !tab_ids(v.tabs).contains(plan.spec.id),
    ensures
        tab_ids(w.tabs).no_duplicates(),
        forall|x: Seq<char>| #[trigger]
            tab_ids(w.tabs).contains(x) == (tab_ids(v.tabs).contains(x) || x == plan.spec.id),
        forall|x: Seq<char>| #[trigger] popped_out(w.tabs, x) == popped_out(v.tabs, x),
{
    let a = v.tabs;
    let b = w.tabs;
    lemma_adding(spawn, v, plan.spec, plan.load_on_open, w, r);
    assert forall|k: int| 0 <= k < b.len() implies tab_ids(b)[k] == tab_ids(a).push(
        plan.spec.id,
    )[k] by {
        if k < a.len() {
            assert(b[k].id == a[k].id);
        }
    }
    assert(tab_ids(b) =~= tab_ids(a).push(plan.spec.id));
    assert forall|x: Seq<char>| #[trigger]
        tab_ids(b).contains(x) == (tab_ids(a).contains(x) || x == plan.spec.id) by {
        if tab_ids(a).contains(x) {
            let k = choose|k: int| 0 <= k < a.len() && tab_ids(a)[k] == x;
            assert(tab_ids(b)[k] == x);
        }
        if x == plan.spec.id {
            assert(tab_ids(b)[a.len() as int] == x);
        }
        if tab_ids(b).contains(x) {
            let k = choose|k: int| 0 <= k < b.len() && tab_ids(b)[k] == x;
            if k < a.len() {
                assert(tab_ids(a)[k] == x);
            }
        }
    }
    assert forall|x: Seq<char>| #[trigger] popped_out(b, x) == popped_out(a, x) by {
        if popped_out(a, x) {
            let k = choose|k: int|
                0 <= k < a.len() && (#[trigger] a[k]).id == x && a[k].primary.slot is Detached;
            assert(b[k].id == x);
        }
        if popped_out(b, x) {
            let k = choose|k: int|
                0 <= k < b.len() && (#[trigger] b[k]).id == x && b[k].primary.slot is Detached;
            assert(k < a.len());
            assert(a[k].id == x);
        }
    }
}

proof fn lemma_new_additions<F: Fn(&Ask) -> Outcome>(
    spawn: &F,
    vs: Seq<RegistryView>,
    plans: Seq<TabPlanView>,
    k: int,
)
    requires
        new_additions(spawn, vs, plans),
        0 <= k <= plans.len(),
        tab_ids(vs[0].tabs).no_duplicates(),
        plan_ids(plans).no_duplicates(),
        forall|x: Seq<char>| #[trigger]
            plan_ids(plans).contains(x) ==> !tab_ids(vs[0].tabs).contains(x) || popped_out(
                vs[0].tabs,
                x,
            ),
    ensures
        tab_ids(vs[k].tabs).no_duplicates(),
        forall|x: Seq<char>| #[trigger]
            tab_ids(vs[k].tabs).contains(x) == (tab_ids(vs[0].tabs).contains(x) || plan_ids(
                plans.take(k),
            ).contains(x)),
        forall|x: Seq<char>| #[trigger] popped_out(vs[k].tabs, x) == popped_out(vs[0].tabs, x),
    decreases k,
{
    if k > 0 {
        lemma_new_additions(spawn, vs, plans, k - 1);
        let plan = plans[k - 1];
        let id = plan.spec.id;
        let before = plan_ids(plans.take(k - 1));
        let after = plan_ids(plans.take(k));
        assert(after =~= before.push(id));
        assert(plan_ids(plans)[k - 1] == id);
        assert(!before.contains(id)) by {
            if before.contains(id) {
                let j = choose|j: int| 0 <= j < before.len() && before[j] == id;
                assert(plan_ids(plans)[j] == id);
            }
        }
        assert forall|x: Seq<char>| #[trigger] after.contains(x) == (before.contains(x) || x
            == id) by {
            if before.contains(x) {
                let j = choose|j: int| 0 <= j < before.len() && before[j] == x;
                assert(after[j] == x);
            }
            if x == id {
                assert(after[k - 1] == x);
            }
        }
        assert(adding_one(spawn, vs[k - 1], plan, vs[k]));
        if popped_out(vs[k - 1].tabs, id) {
            assert(popped_out(vs[0].tabs, id));
            let j = choose|j: int|
                0 <= j < vs[0].tabs.len() && (#[trigger] vs[0].tabs[j]).id == id
                    && vs[0].tabs[j].primary.slot is Detached;
            assert(tab_ids(vs[0].tabs)[j] == id);
        } else {
            let r = choose|r: Result<(), SurfaceError>|
                #[trigger] adding(spawn, vs[k - 1], plan.spec, plan.load_on_open, vs[k], r);
            assert(plan_ids(plans).contains(id));
            lemma_appended(spawn, vs[k - 1], plan, vs[k], r);
        }
    } else {
        assert(plan_ids(plans.take(0)) =~= Seq::empty());
    }
}

proof fn lemma_respawns<F: Fn(&Ask) -> Outcome>(
    spawn: &F,
    vs: Seq<RegistryView>,
    plans: Seq<TabPlanView>,
    k: int,
)
    requires
        respawns(spawn, vs, plans),
        0 <= k <= plans.len(),
        tab_ids(vs[0].tabs).no_duplicates(),
        forall|x: Seq<char>| #[trigger]
            plan_ids(plans).contains(x) ==> tab_ids(vs[0].tabs).contains(x),
    ensures
        tab_ids(vs[k].tabs).no_duplicates(),
        alike(vs[k].tabs, vs[0].tabs),
    decreases k,
{
    if k > 0 {
        lemma_respawns(spawn, vs, plans, k - 1);
        let plan = plans[k - 1];
        let id = plan.spec.id;
        let v = vs[k - 1];
        assert(plan_ids(plans)[k - 1] == id);
        assert(plan_ids(plans).contains(id));
        assert(respawning_one(spawn, v, plan, vs[k]));
        if !popped_out(v.tabs, id) {
            let gone = removed(v, id);
            let r = choose|r: Result<(), SurfaceError>|
                #[trigger] adding(spawn, gone, plan.spec, plan.load_on_open, vs[k], r);
            lemma_removed(v, id);
            lemma_appended(spawn, gone, plan, vs[k], r);
        }
    }
}

proof fn lemma_metas(v: RegistryView, ms: Seq<MetaPlanView>)
    ensures
        tab_ids(metas(v, ms).tabs) == tab_ids(v.tabs),
        alike(metas(v, ms).tabs, v.tabs),
    decreases ms.len(),
{
    if ms.len() > 0 {
        lemma_metas(v, ms.drop_last());
        let m = ms.last();
        let before = metas(v, ms.drop_last());
        let a = before.tabs;
        let b = with_meta(before, m.id, m.meta, m.tree, m.tree_path).tabs;
        lemma_position(a, m.id);
        assert(tab_ids(b) =~= tab_ids(a));
        assert forall|x: Seq<char>| #[trigger] popped_out(b, x) == popped_out(a, x) by {
            if popped_out(a, x) {
                let k = choose|k: int|
                    0 <= k < a.len() && (#[trigger] a[k]).id == x && a[k].primary.slot is Detached;
                assert(b[k].id == x && b[k].primary.slot is Detached);
            }
            if popped_out(b, x) {
                let k = choose|k: int|
                    0 <= k < b.len() && (#[trigger] b[k]).id == x && b[k].primary.slot is Detached;
                assert(a[k].id == x && a[k].primary.slot is Detached);
            }
        }
    }
}

/// Reordering keeps the tabs, and the popped-out ones among them.
proof fn lemma_reordered(v: RegistryView, order: Seq<Seq<char>>)
    requires
        tab_ids(v.tabs).no_duplicates(),
    ensures
        tab_ids(reordered(v, order).tabs).no_duplicates(),
        alike(reordered(v, order).tabs, v.tabs),
{
    broadcast use vstd::seq_lib::group_to_multiset_ensures;

    let a = v.tabs;
    let b = reordered(v, order).tabs;
    law_reorder_is_a_sorted_permutation(v, order);
    assert(a.no_duplicates()) by {
        assert forall|i: int, j: int| 0 <= i < a.len() && 0 <= j < a.len() && i != j implies a[i]
            != a[j] by {
            assert(tab_ids(a)[i] != tab_ids(a)[j]);
        }
    }
    a.lemma_multiset_has_no_duplicates();
    b.lemma_multiset_has_no_duplicates_conv();
    assert forall|t: TabEntryView| #[trigger] a.contains(t) == b.contains(t) by {
        assert(a.to_multiset().contains(t) == a.contains(t));
        assert(b.to_multiset().contains(t) == b.contains(t));
    }
    assert forall|i: int, j: int| 0 <= i < b.len() && 0 <= j < b.len() && i != j implies tab_ids(
        b,
    )[i] != tab_ids(b)[j] by {
        assert(b.contains(b[i]) && b.contains(b[j]));
        assert(a.contains(b[i]) && a.contains(b[j]));
        let p = choose|p: int| 0 <= p < a.len() && a[p] == b[i];
        let q = choose|q: int| 0 <= q < a.len() && a[q] == b[j];
        assert(p != q);
        assert(tab_ids(a)[p] != tab_ids(a)[q]);
    }
    assert forall|x: Seq<char>| #[trigger] tab_ids(b).contains(x) == tab_ids(a).contains(x) by {
        if tab_ids(b).contains(x) {
            let i = choose|i: int| 0 <= i < b.len() && tab_ids(b)[i] == x;
            assert(b.contains(b[i]));
            assert(a.contains(b[i]));
            let p = choose|p: int| 0 <= p < a.len() && a[p] == b[i];
            assert(tab_ids(a)[p] == x);
        }
        if tab_ids(a).contains(x) {
            let i = choose|i: int| 0 <= i < a.len() && tab_ids(a)[i] == x;
            assert(a.contains(a[i]));
            let p = choose|p: int| 0 <= p < b.len() && b[p] == a[i];
            assert(tab_ids(b)[p] == x);
        }
    }
    assert forall|x: Seq<char>| #[trigger] popped_out(b, x) == popped_out(a, x) by {
        if popped_out(b, x) {
            let i = choose|i: int|
                0 <= i < b.len() && (#[trigger] b[i]).id == x && b[i].primary.slot is Detached;
            assert(b.contains(b[i]));
            assert(a.contains(b[i]));
            let p = choose|p: int| 0 <= p < a.len() && a[p] == b[i];
        }
        if popped_out(a, x) {
            let i = choose|i: int|
                0 <= i < a.len() && (#[trigger] a[i]).id == x && a[i].primary.slot is Detached;
            assert(a.contains(a[i]));
            let p = choose|p: int| 0 <= p < b.len() && b[p] == a[i];
        }
    }
}

/// In an order without repetitions every name stands at its own rank.
proof fn lemma_own_rank(order: Seq<Seq<char>>, k: int)
    requires
        order.no_duplicates(),
        0 <= k < order.len(),
    ensures
        rank(order, order[k]) == k,
{
    lemma_rank(order, order[k]);
}

/// Sorted tabs among which all of `order` are have those first.
proof fn lemma_sorted(tabs: Seq<TabEntryView>, order: Seq<Seq<char>>, k: int)
    requires
        tab_ids(tabs).no_duplicates(),
        order.no_duplicates(),
        forall|i: int, j: int|
            0 <= i < j < tabs.len() ==> rank(order, (#[trigger] tabs[i]).id) <= rank(
                order,
                (#[trigger] tabs[j]).id,
            ),
        forall|x: Seq<char>| #[trigger] order.contains(x) ==> tab_ids(tabs).contains(x),
        0 <= k < order.len(),
    ensures
        k < tabs.len(),
        tabs[k].id == order[k],
    decreases k,
{
    assert forall|j: int| 0 <= j < k implies j < tabs.len() && (#[trigger] tabs[j]).id
        == order[j] by {
        lemma_sorted(tabs, order, j);
    }
    assert(order.contains(order[k]));
    let p = choose|p: int| 0 <= p < tabs.len() && tab_ids(tabs)[p] == order[k];
    assert(tabs[p].id == order[k]);
    lemma_own_rank(order, k);
    if p < k {
        assert(tabs[p].id == order[p]);
        assert(order[p] != order[k]);
    }
    let r = rank(order, tabs[k].id);
    lemma_rank(order, tabs[k].id);
    if p > k {
        assert(rank(order, tabs[k].id) <= rank(order, tabs[p].id));
        if r < k {
            assert(tabs[r].id == order[r]);
            assert(tab_ids(tabs)[r] == tab_ids(tabs)[k]);
        }
    }
}

/// Reordered tabs stand as the order lists them, where it lists every tab that
/// is not popped out, and no other.
proof fn lemma_in_line(v: RegistryView, order: Seq<Seq<char>>)
    requires
        tab_ids(v.tabs).no_duplicates(),
        order.no_duplicates(),
        forall|x: Seq<char>| #[trigger] order.contains(x) ==> tab_ids(v.tabs).contains(x),
        forall|x: Seq<char>| #[trigger]
            tab_ids(v.tabs).contains(x) ==> order.contains(x) || popped_out(v.tabs, x),
    ensures
        in_line(reordered(v, order).tabs, order),
{
    let b = reordered(v, order).tabs;
    lemma_reordered(v, order);
    law_reorder_is_a_sorted_permutation(v, order);
    assert forall|x: Seq<char>| #[trigger] order.contains(x) implies tab_ids(b).contains(x) by {
        assert(tab_ids(v.tabs).contains(x));
    }
    assert forall|k: int| 0 <= k < order.len() implies k < b.len() && (#[trigger] tab_ids(b)[k])
        == order[k] by {
        lemma_sorted(b, order, k);
    }
    if order.len() > 0 {
        lemma_sorted(b, order, order.len() - 1);
    }
    assert(tab_ids(b).take(order.len() as int) =~= order);
    assert forall|i: int| order.len() <= i < b.len() implies (
    #[trigger] b[i]).primary.slot is Detached by {
        let x = b[i].id;
        assert(tab_ids(b)[i] == x);
        assert(tab_ids(b).contains(x));
        assert(!order.contains(x)) by {
            if order.contains(x) {
                let k = choose|k: int| 0 <= k < order.len() && order[k] == x;
                assert(tab_ids(b)[k] == x);
            }
        }
        assert(tab_ids(v.tabs).contains(x));
        assert(popped_out(b, x));
        let j = choose|j: int|
            0 <= j < b.len() && (#[trigger] b[j]).id == x && b[j].primary.slot is Detached;
        assert(tab_ids(b)[j] == x);
    }
}

proof fn lemma_keys(tabs: Seq<TabView>, x: Seq<char>)
    ensures
        keys_of(tabs).contains(x) == has_key(tabs, x),
{
    if has_key(tabs, x) {
        let i = choose|i: int| 0 <= i < tabs.len() && (#[trigger] tabs[i]).key == x;
        assert(keys_of(tabs)[i] == x);
    }
    if keys_of(tabs).contains(x) {
        let i = choose|i: int| 0 <= i < tabs.len() && keys_of(tabs)[i] == x;
        assert(tabs[i].key == x);
    }
}

/// Tabs with identities of their own name no key twice.
pub proof fn lemma_distinct_keys(tabs: Seq<TabView>)
    requires
        distinct_keys(tabs),
    ensures
        keys_of(tabs).no_duplicates(),
{
    assert forall|i: int, j: int| 0 <= i < tabs.len() && 0 <= j < tabs.len() && i
        != j implies keys_of(tabs)[i] != keys_of(tabs)[j] by {
        if i < j {
            assert(tabs[i].key != tabs[j].key);
        } else {
            assert(tabs[j].key != tabs[i].key);
        }
    }
}

/// What is not in other tabs is still in order and without repetitions.
proof fn lemma_not_in_distinct(tabs: Seq<TabView>, others: Seq<TabView>)
    requires
        distinct_keys(tabs),
    ensures
        distinct_keys(tabs_not_in(tabs, others)),
        forall|i: int|
            0 <= i < tabs_not_in(tabs, others).len() ==> has_key(
                tabs,
                (#[trigger] tabs_not_in(tabs, others)[i]).key,
            ),
    decreases tabs.len(),
{
    if tabs.len() > 0 {
        let rest = tabs.drop_last();
        let last = tabs.last();
        assert forall|i: int, j: int| 0 <= i < j < rest.len() implies (#[trigger] rest[i]).key != (
        #[trigger] rest[j]).key by {
            assert(tabs[i].key != tabs[j].key);
        }
        lemma_not_in_distinct(rest, others);
        let before = tabs_not_in(rest, others);
        let after = tabs_not_in(tabs, others);
        assert forall|i: int| 0 <= i < after.len() implies has_key(tabs, (#[trigger] after[i]).key) by {
            if i < before.len() {
                assert(has_key(rest, before[i].key));
                let k = choose|k: int|
                    0 <= k < rest.len() && (#[trigger] rest[k]).key == before[i].key;
                assert(tabs[k].key == before[i].key);
            } else {
                assert(tabs[tabs.len() - 1].key == last.key);
            }
        }
        assert forall|i: int, j: int| 0 <= i < j < after.len() implies (#[trigger] after[i]).key
            != (#[trigger] after[j]).key by {
            assert(before[i].key == after[i].key);
            if j < before.len() {
                assert(before[i].key != before[j].key);
            } else {
                assert(has_key(rest, before[i].key));
                let k = choose|k: int|
                    0 <= k < rest.len() && (#[trigger] rest[k]).key == before[i].key;
                assert(tabs[k].key != tabs[tabs.len() - 1].key);
            }
        }
    }
}

/// What is spawned anew is listed in both configurations.
proof fn lemma_respawned_shared(tabs: Seq<TabView>, old: Seq<TabView>, k: int)
    requires
        0 <= k < respawned(tabs, old).len(),
    ensures
        has_key(tabs, respawned(tabs, old)[k].key),
        has_key(old, respawned(tabs, old)[k].key),
    decreases tabs.len(),
{
    if tabs.len() > 0 {
        let rest = tabs.drop_last();
        let last = tabs.last();
        let before = respawned(rest, old);
        if k < before.len() {
            lemma_respawned_shared(rest, old, k);
            let i = choose|i: int| 0 <= i < rest.len() && (#[trigger] rest[i]).key == before[k].key;
            assert(tabs[i].key == before[k].key);
        } else {
            lemma_first_keyed(old, last.key);
            assert(tabs[tabs.len() - 1].key == last.key);
        }
    }
}

/// The plans for tabs name them in their order.
pub proof fn lemma_plan_ids(roots: Seq<RootView>, tabs: Seq<TabView>)
    ensures
        plan_ids(plans_of(roots, tabs)) == keys_of(tabs),
{
    assert forall|i: int| 0 <= i < tabs.len() implies plan_ids(plans_of(roots, tabs))[i]
        == keys_of(tabs)[i] by {
        assert(plans_of(roots, tabs)[i] == plan_of(roots, tabs[i]));
    }
    assert(plan_ids(plans_of(roots, tabs)) =~= keys_of(tabs));
}

/// A reload brings a window that stays open in line with the new
/// configuration: whatever it did to the tabs, and however the spawns came
/// out, the window lists the tabs of the new configuration in their order, and
/// after them only tabs that are popped out.
pub proof fn law_an_update_brings_a_window_in_line<
    F: Fn(&Ask) -> Outcome,
>(
    spawn: &F,
    v: RegistryView,
    o: WindowView,
    n: WindowView,
    windows: Seq<WindowView>,
    label: Seq<char>,
    w: RegistryView,
)
    requires
        distinct_keys(o.tabs),
        distinct_keys(n.tabs),
        in_line(v.tabs, keys_of(o.tabs)),
        updating(spawn, v, update_op(windows, changes(o, n), label), w),
    ensures
        in_line(w.tabs, keys_of(n.tabs)),
{
    let u = update_op(windows, changes(o, n), label);
    let order = keys_of(n.tabs);
    lemma_distinct_keys(o.tabs);
    lemma_distinct_keys(n.tabs);
    let mid = choose|mid: RegistryView|
        {
            &&& #[trigger] reconciling(
                spawn,
                v,
                u.remove_tabs,
                u.add_tabs,
                u.respawn_tabs,
                mid,
            )
            &&& reshowing(
                spawn,
                reordered(metas(mid, u.set_meta), u.order),
                v.active,
                u.respawn_tabs,
                w,
            )
        };
    let roots = roots_titled(windows, n.title);
    lemma_plan_ids(roots, tabs_not_in(n.tabs, o.tabs));
    lemma_plan_ids(roots, respawned(n.tabs, o.tabs));
    lemma_reconciled(spawn, v, o, n, u, mid);
    lemma_metas(mid, u.set_meta);
    let ready = metas(mid, u.set_meta);
    lemma_in_line(ready, order);
    let sorted = reordered(ready, order);
    if v.active is Some && plan_ids(u.respawn_tabs).contains(v.active->0) {
        let r = choose|r: Result<bool, SurfaceError>|
            #[trigger] activation(spawn, sorted, v.active->0, w, r);
        law_activating_ends_no_terminal(spawn, sorted, v.active->0, w, r);
        assert(tab_ids(w.tabs) =~= tab_ids(sorted.tabs));
        assert forall|i: int| order.len() <= i < w.tabs.len() implies (
        #[trigger] w.tabs[i]).primary.slot is Detached by {
            assert(sorted.tabs[i].primary.slot is Detached);
        }
    }
}

/// Once tabs were removed and added, all tabs of the new configuration are
/// there, those that are to be spawned anew among them, and with them at most
/// tabs that are popped out.
proof fn lemma_reconciled_parts<F: Fn(&Ask) -> Outcome>(
    spawn: &F,
    v: RegistryView,
    o: WindowView,
    n: WindowView,
    u: TabUpdateView,
    a: RegistryView,
    b: RegistryView,
    vs: Seq<RegistryView>,
)
    requires
        distinct_keys(o.tabs),
        distinct_keys(n.tabs),
        in_line(v.tabs, keys_of(o.tabs)),
        u.remove_tabs == keys_of(tabs_not_in(o.tabs, n.tabs)),
        plan_ids(u.add_tabs) == keys_of(tabs_not_in(n.tabs, o.tabs)),
        plan_ids(u.respawn_tabs) == keys_of(respawned(n.tabs, o.tabs)),
        a == removals(v, u.remove_tabs),
        new_additions(spawn, vs, u.add_tabs),
        vs[0] == a,
        vs.last() == b,
    ensures
        tab_ids(b.tabs).no_duplicates(),
        forall|x: Seq<char>| #[trigger]
            keys_of(n.tabs).contains(x) ==> tab_ids(b.tabs).contains(x),
        forall|x: Seq<char>| #[trigger]
            tab_ids(b.tabs).contains(x) ==> keys_of(n.tabs).contains(x) || popped_out(b.tabs, x),
        forall|x: Seq<char>| #[trigger]
            plan_ids(u.respawn_tabs).contains(x) ==> tab_ids(b.tabs).contains(x),
{
    lemma_removals(v, u.remove_tabs);
    lemma_not_in_distinct(n.tabs, o.tabs);
    lemma_distinct_keys(tabs_not_in(n.tabs, o.tabs));
    let old_keys = keys_of(o.tabs);
    assert forall|x: Seq<char>| #[trigger] tab_ids(v.tabs).contains(x) implies has_key(
        o.tabs,
        x,
    ) || popped_out(v.tabs, x) by {
        let i = choose|i: int| 0 <= i < v.tabs.len() && tab_ids(v.tabs)[i] == x;
        assert(v.tabs[i].id == x);
        if i < old_keys.len() {
            assert(tab_ids(v.tabs).take(old_keys.len() as int)[i] == x);
            assert(old_keys[i] == x);
            lemma_keys(o.tabs, x);
        }
    }
    assert forall|x: Seq<char>| #[trigger] has_key(o.tabs, x) implies tab_ids(v.tabs).contains(
        x,
    ) by {
        lemma_keys(o.tabs, x);
        let i = choose|i: int| 0 <= i < old_keys.len() && old_keys[i] == x;
        assert(tab_ids(v.tabs).take(old_keys.len() as int)[i] == x);
        assert(tab_ids(v.tabs)[i] == x);
    }
    assert forall|x: Seq<char>| #[trigger] plan_ids(u.add_tabs).contains(x) implies !tab_ids(
        a.tabs,
    ).contains(x) || popped_out(a.tabs, x) by {
        lemma_keys(tabs_not_in(n.tabs, o.tabs), x);
        law_tabs_are_accounted_for(o, n, x);
        lemma_tabs_not_in(n.tabs, o.tabs, x);
    }
    lemma_new_additions(spawn, vs, u.add_tabs, u.add_tabs.len() as int);
    assert(u.add_tabs.take(u.add_tabs.len() as int) =~= u.add_tabs);
    assert forall|x: Seq<char>| #[trigger] keys_of(n.tabs).contains(x) implies tab_ids(
        b.tabs,
    ).contains(x) by {
        lemma_keys(n.tabs, x);
        lemma_keys(tabs_not_in(n.tabs, o.tabs), x);
        law_tabs_are_accounted_for(o, n, x);
    }
    assert forall|x: Seq<char>| #[trigger] tab_ids(b.tabs).contains(x) implies keys_of(
        n.tabs,
    ).contains(x) || popped_out(b.tabs, x) by {
        lemma_keys(n.tabs, x);
        lemma_keys(tabs_not_in(n.tabs, o.tabs), x);
        law_tabs_are_accounted_for(o, n, x);
        assert(popped_out(b.tabs, x) == popped_out(v.tabs, x)) by {
            assert(popped_out(a.tabs, x) == popped_out(v.tabs, x));
        }
        if tab_ids(a.tabs).contains(x) {
            assert(tab_ids(v.tabs).contains(x));
        }
    }
    assert forall|x: Seq<char>| #[trigger] plan_ids(u.respawn_tabs).contains(x) implies tab_ids(
        b.tabs,
    ).contains(x) by {
        let rs = respawned(n.tabs, o.tabs);
        let k = choose|k: int| 0 <= k < rs.len() && keys_of(rs)[k] == x;
        lemma_respawned_shared(n.tabs, o.tabs, k);
        lemma_keys(n.tabs, x);
    }
}

/// After the tab changes of a reload exactly the tabs of the new configuration
/// are there, and with them at most tabs that are popped out.
proof fn lemma_reconciled<F: Fn(&Ask) -> Outcome>(
    spawn: &F,
    v: RegistryView,
    o: WindowView,
    n: WindowView,
    u: TabUpdateView,
    w: RegistryView,
)
    requires
        distinct_keys(o.tabs),
        distinct_keys(n.tabs),
        in_line(v.tabs, keys_of(o.tabs)),
        u.remove_tabs == keys_of(tabs_not_in(o.tabs, n.tabs)),
        plan_ids(u.add_tabs) == keys_of(tabs_not_in(n.tabs, o.tabs)),
        plan_ids(u.respawn_tabs) == keys_of(respawned(n.tabs, o.tabs)),
        reconciling(spawn, v, u.remove_tabs, u.add_tabs, u.respawn_tabs, w),
    ensures
        tab_ids(w.tabs).no_duplicates(),
        forall|x: Seq<char>| #[trigger]
            keys_of(n.tabs).contains(x) ==> tab_ids(w.tabs).contains(x),
        forall|x: Seq<char>| #[trigger]
            tab_ids(w.tabs).contains(x) ==> keys_of(n.tabs).contains(x) || popped_out(w.tabs, x),
{
    let a = removals(v, u.remove_tabs);
    let b = choose|b: RegistryView|
        {
            &&& #[trigger] adding_new(spawn, a, u.add_tabs, b)
            &&& respawning(spawn, b, u.respawn_tabs, w)
        };
    let vs = choose|vs: Seq<RegistryView>|
        #[trigger] new_additions(spawn, vs, u.add_tabs) && vs[0] == a && vs.last() == b;
    let ws = choose|ws: Seq<RegistryView>|
        #[trigger] respawns(spawn, ws, u.respawn_tabs) && ws[0] == b && ws.last() == w;
    lemma_reconciled_parts(spawn, v, o, n, u, a, b, vs);
    lemma_respawns(spawn, ws, u.respawn_tabs, u.respawn_tabs.len() as int);
    assert forall|x: Seq<char>| #[trigger] tab_ids(w.tabs).contains(x) implies keys_of(
        n.tabs,
    ).contains(x) || popped_out(w.tabs, x) by {
        assert(tab_ids(b.tabs).contains(x));
        assert(popped_out(w.tabs, x) == popped_out(b.tabs, x));
    }
    assert forall|x: Seq<char>| #[trigger] keys_of(n.tabs).contains(x) implies tab_ids(
        w.tabs,
    ).contains(x) by {
        assert(tab_ids(b.tabs).contains(x));
    }
}

/// Whether a tab is called, stands and is watched and ended as a configuration
/// says.
pub open spec fn carries(t: TabEntryView, c: TabView) -> bool {
    &&& t.title == c.title
    &&& t.primary.spec.title == c.title
    &&& t.primary.spec.group == c.group
    &&& t.primary.spec.probe == c.probe
    &&& t.primary.spec.kill == c.kill
    &&& t.primary.spec.split == c.split
}

/// Whether a tab runs what a configuration says, where it says.
pub open spec fn runs_as(t: TabEntryView, c: TabView) -> bool {
    &&& t.primary.spec.dir == c.dir
    &&& t.primary.spec.shell == c.shell
    &&& t.primary.spec.startup == c.startup
}

/// Whether every tab that is listed and not popped out is called, stands and is
/// watched and ended as its configuration says.
pub open spec fn told(tabs: Seq<TabEntryView>, listed: Seq<TabView>) -> bool {
    forall|k: int, j: int|
        0 <= k < tabs.len() && 0 <= j < listed.len() && (#[trigger] tabs[k]).id == (
        #[trigger] listed[j]).key && !(tabs[k].primary.slot is Detached) ==> carries(
            tabs[k],
            listed[j],
        )
}

/// One of the two things that a configuration says of a tab.
spec fn agrees(t: TabEntryView, c: TabView, terminal: bool) -> bool {
    if terminal {
        runs_as(t, c)
    } else {
        carries(t, c)
    }
}

/// Whether what is known by the identity of `c`, and not popped out, agrees
/// with it.
spec fn agreed(tabs: Seq<TabEntryView>, c: TabView, terminal: bool) -> bool {
    forall|k: int|
        0 <= k < tabs.len() && (#[trigger] tabs[k]).id == c.key && !(
        tabs[k].primary.slot is Detached) ==> agrees(tabs[k], c, terminal)
}

/// Whether every plan for the tab of `c` is for what `c` says.
spec fn planned_as(plans: Seq<TabPlanView>, c: TabView) -> bool {
    forall|k: int|
        0 <= k < plans.len() && (#[trigger] plans[k]).spec.id == c.key ==> {
            &&& plans[k].spec.title == c.title
            &&& plans[k].spec.dir == c.dir
            &&& plans[k].spec.shell == c.shell
            &&& plans[k].spec.startup == c.startup
            &&& plans[k].spec.group == c.group
            &&& plans[k].spec.probe == c.probe
            &&& plans[k].spec.kill == c.kill
            &&& plans[k].spec.split == c.split
        }
}

proof fn lemma_removed_agrees(v: RegistryView, id: Seq<char>, c: TabView, terminal: bool)
    requires
        agreed(v.tabs, c, terminal),
    ensures
        agreed(removed(v, id).tabs, c, terminal),
{
    let b = removed(v, id).tabs;
    lemma_position(v.tabs, id);
    assert forall|k: int|
        0 <= k < b.len() && (#[trigger] b[k]).id == c.key && !(b[k].primary.slot is Detached)
        implies agrees(b[k], c, terminal) by {
        if known(v.tabs, id) && k >= position(v.tabs, id) {
            assert(b[k] == v.tabs[k + 1]);
        } else {
            assert(b[k] == v.tabs[k]);
        }
    }
}

proof fn lemma_removals_agree(v: RegistryView, ids: Seq<Seq<char>>, c: TabView, terminal: bool)
    requires
        agreed(v.tabs, c, terminal),
    ensures
        agreed(removals(v, ids).tabs, c, terminal),
    decreases ids.len(),
{
    if ids.len() > 0 {
        lemma_removals_agree(v, ids.drop_last(), c, terminal);
        lemma_removed_agrees(removals(v, ids.drop_last()), ids.last(), c, terminal);
    }
}

proof fn lemma_adding_agrees<F: Fn(&Ask) -> Outcome>(
    spawn: &F,
    v: RegistryView,
    plans: Seq<TabPlanView>,
    k: int,
    w: RegistryView,
    r: Result<(), SurfaceError>,
    c: TabView,
    terminal: bool,
)
    requires
        0 <= k < plans.len(),
        planned_as(plans, c),
        adding(spawn, v, plans[k].spec, plans[k].load_on_open, w, r),
        agreed(v.tabs, c, terminal),
    ensures
        agreed(w.tabs, c, terminal),
{
    let plan = plans[k];
    lemma_adding(spawn, v, plan.spec, plan.load_on_open, w, r);
    assert forall|i: int|
        0 <= i < w.tabs.len() && (#[trigger] w.tabs[i]).id == c.key && !(
        w.tabs[i].primary.slot is Detached) implies agrees(w.tabs[i], c, terminal) by {
        if i < v.tabs.len() {
            assert(w.tabs[i].id == v.tabs[i].id);
            assert(agrees(v.tabs[i], c, terminal));
        }
    }
}

proof fn lemma_new_additions_agree<F: Fn(&Ask) -> Outcome>(
    spawn: &F,
    vs: Seq<RegistryView>,
    plans: Seq<TabPlanView>,
    k: int,
    c: TabView,
    terminal: bool,
)
    requires
        new_additions(spawn, vs, plans),
        0 <= k <= plans.len(),
        planned_as(plans, c),
        agreed(vs[0].tabs, c, terminal),
    ensures
        agreed(vs[k].tabs, c, terminal),
    decreases k,
{
    if k > 0 {
        lemma_new_additions_agree(spawn, vs, plans, k - 1, c, terminal);
        let plan = plans[k - 1];
        assert(adding_one(spawn, vs[k - 1], plan, vs[k]));
        if !popped_out(vs[k - 1].tabs, plan.spec.id) {
            let r = choose|r: Result<(), SurfaceError>|
                #[trigger] adding(spawn, vs[k - 1], plan.spec, plan.load_on_open, vs[k], r);
            lemma_adding_agrees(spawn, vs[k - 1], plans, k - 1, vs[k], r, c, terminal);
        }
    }
}

/// A tab that is popped out agrees with whatever is said of it.
proof fn lemma_out_agrees(tabs: Seq<TabEntryView>, c: TabView, terminal: bool)
    requires
        tab_ids(tabs).no_duplicates(),
        popped_out(tabs, c.key) || !tab_ids(tabs).contains(c.key),
    ensures
        agreed(tabs, c, terminal),
{
    assert forall|k: int|
        0 <= k < tabs.len() && (#[trigger] tabs[k]).id == c.key && !(
        tabs[k].primary.slot is Detached) implies agrees(tabs[k], c, terminal) by {
        assert(tab_ids(tabs)[k] == c.key);
        if popped_out(tabs, c.key) {
            let j = choose|j: int|
                0 <= j < tabs.len() && (#[trigger] tabs[j]).id == c.key
                    && tabs[j].primary.slot is Detached;
            assert(tab_ids(tabs)[j] == c.key);
        }
    }
}

proof fn lemma_respawns_agree<F: Fn(&Ask) -> Outcome>(
    spawn: &F,
    vs: Seq<RegistryView>,
    plans: Seq<TabPlanView>,
    k: int,
    c: TabView,
    terminal: bool,
)
    requires
        respawns(spawn, vs, plans),
        0 <= k <= plans.len(),
        tab_ids(vs[0].tabs).no_duplicates(),
        forall|x: Seq<char>| #[trigger]
            plan_ids(plans).contains(x) ==> tab_ids(vs[0].tabs).contains(x),
        planned_as(plans, c),
    ensures
        agreed(vs[0].tabs, c, terminal) ==> agreed(vs[k].tabs, c, terminal),
        plan_ids(plans.take(k)).contains(c.key) ==> agreed(vs[k].tabs, c, terminal),
    decreases k,
{
    if k > 0 {
        lemma_respawns_agree(spawn, vs, plans, k - 1, c, terminal);
        lemma_respawns(spawn, vs, plans, k - 1);
        let plan = plans[k - 1];
        let v = vs[k - 1];
        assert(respawning_one(spawn, v, plan, vs[k]));
        let before = plan_ids(plans.take(k - 1));
        let after = plan_ids(plans.take(k));
        if after.contains(c.key) && plan.spec.id != c.key {
            let j = choose|j: int| 0 <= j < after.len() && after[j] == c.key;
            assert(before[j] == c.key);
        }
        if popped_out(v.tabs, plan.spec.id) {
            if plan.spec.id == c.key {
                lemma_out_agrees(v.tabs, c, terminal);
            }
        } else {
            let gone = removed(v, plan.spec.id);
            let r = choose|r: Result<(), SurfaceError>|
                #[trigger] adding(spawn, gone, plan.spec, plan.load_on_open, vs[k], r);
            if plan.spec.id == c.key {
                lemma_removed(v, c.key);
                lemma_out_agrees(gone.tabs, c, terminal);
                lemma_adding_agrees(spawn, gone, plans, k - 1, vs[k], r, c, terminal);
            } else if agreed(v.tabs, c, terminal) {
                lemma_removed_agrees(v, plan.spec.id, c, terminal);
                lemma_adding_agrees(spawn, gone, plans, k - 1, vs[k], r, c, terminal);
            }
        }
    } else {
        assert(plan_ids(plans.take(0)) =~= Seq::empty());
    }
}

/// Whether all metadata for the tab of `c` is what `c` says.
spec fn meta_as(ms: Seq<MetaPlanView>, c: TabView) -> bool {
    forall|k: int|
        0 <= k < ms.len() && (#[trigger] ms[k]).id == c.key ==> {
            &&& ms[k].meta.title == c.title
            &&& ms[k].meta.group == c.group
            &&& ms[k].meta.probe == c.probe
            &&& ms[k].meta.kill == c.kill
            &&& ms[k].meta.split == c.split
        }
}

proof fn lemma_metas_agree(v: RegistryView, ms: Seq<MetaPlanView>, c: TabView, terminal: bool)
    requires
        tab_ids(v.tabs).no_duplicates(),
        meta_as(ms, c),
    ensures
        agreed(v.tabs, c, terminal) ==> agreed(metas(v, ms).tabs, c, terminal),
        !terminal && (exists|k: int| 0 <= k < ms.len() && (#[trigger] ms[k]).id == c.key)
            ==> agreed(metas(v, ms).tabs, c, terminal),
    decreases ms.len(),
{
    if ms.len() > 0 {
        let rest = ms.drop_last();
        let m = ms.last();
        assert forall|k: int| 0 <= k < rest.len() && (#[trigger] rest[k]).id == c.key implies {
            &&& rest[k].meta.title == c.title
            &&& rest[k].meta.group == c.group
            &&& rest[k].meta.probe == c.probe
            &&& rest[k].meta.kill == c.kill
            &&& rest[k].meta.split == c.split
        } by {
            assert(rest[k] == ms[k]);
        }
        lemma_metas_agree(v, rest, c, terminal);
        lemma_metas(v, rest);
        let before = metas(v, rest);
        let a = before.tabs;
        let b = metas(v, ms).tabs;
        lemma_position(a, m.id);
        assert(ms[ms.len() - 1] == m);
        if exists|k: int| 0 <= k < ms.len() && (#[trigger] ms[k]).id == c.key {
            let k = choose|k: int| 0 <= k < ms.len() && (#[trigger] ms[k]).id == c.key;
            if m.id != c.key {
                assert(rest[k].id == c.key);
            }
        }
        assert forall|k: int|
            0 <= k < b.len() && (#[trigger] b[k]).id == c.key && !(b[k].primary.slot is Detached)
                && (agreed(a, c, terminal) || (!terminal && m.id == c.key)) implies agrees(
            b[k],
            c,
            terminal,
        ) by {
            assert(a[k].id == c.key);
            if m.id == c.key {
                assert(tab_ids(a)[k] == c.key);
                assert(known(a, m.id)) by {
                    lemma_position(a, m.id);
                }
                assert(tab_ids(a)[position(a, m.id)] == c.key);
                assert(k == position(a, m.id));
            } else {
                if known(a, m.id) {
                    assert(a[position(a, m.id)].id == m.id);
                    assert(k != position(a, m.id));
                }
                assert(b[k] == a[k]);
            }
        }
    }
}

proof fn lemma_reordered_agrees(v: RegistryView, order: Seq<Seq<char>>, c: TabView, terminal: bool)
    requires
        agreed(v.tabs, c, terminal),
    ensures
        agreed(reordered(v, order).tabs, c, terminal),
{
    broadcast use vstd::seq_lib::group_to_multiset_ensures;

    law_reorder_is_a_sorted_permutation(v, order);
    let b = reordered(v, order).tabs;
    assert forall|k: int|
        0 <= k < b.len() && (#[trigger] b[k]).id == c.key && !(b[k].primary.slot is Detached)
        implies agrees(b[k], c, terminal) by {
        assert(b.contains(b[k]));
        assert(b.to_multiset().count(b[k]) > 0);
        assert(v.tabs.to_multiset().count(b[k]) > 0);
        assert(v.tabs.contains(b[k]));
        let j = choose|j: int| 0 <= j < v.tabs.len() && v.tabs[j] == b[k];
        assert(v.tabs[j].id == c.key);
    }
}

proof fn lemma_shown_agrees<F: Fn(&Ask) -> Outcome>(
    spawn: &F,
    v: RegistryView,
    id: Seq<char>,
    w: RegistryView,
    r: Result<bool, SurfaceError>,
    c: TabView,
    terminal: bool,
)
    requires
        activation(spawn, v, id, w, r),
        agreed(v.tabs, c, terminal),
    ensures
        agreed(w.tabs, c, terminal),
{
    law_activating_ends_no_terminal(spawn, v, id, w, r);
    assert forall|k: int|
        0 <= k < w.tabs.len() && (#[trigger] w.tabs[k]).id == c.key && !(
        w.tabs[k].primary.slot is Detached) implies agrees(w.tabs[k], c, terminal) by {
        assert(v.tabs[k].id == c.key);
        assert(agrees(v.tabs[k], c, terminal));
    }
}

/// The plans for listed tabs are for what these say.
proof fn lemma_plans_agree(roots: Seq<RootView>, some: Seq<TabView>, all: Seq<TabView>, j: int)
    requires
        distinct_keys(all),
        0 <= j < all.len(),
        forall|k: int| 0 <= k < some.len() ==> all.contains(#[trigger] some[k]),
    ensures
        planned_as(plans_of(roots, some), all[j]),
{
    let plans = plans_of(roots, some);
    assert forall|k: int|
        0 <= k < plans.len() && (#[trigger] plans[k]).spec.id == all[j].key implies plans[k]
        == plan_of(roots, all[j]) by {
        assert(plans[k] == plan_of(roots, some[k]));
        let i = choose|i: int| 0 <= i < all.len() && all[i] == some[k];
        assert(all[i].key == all[j].key);
    }
}

pub proof fn lemma_left_are_listed(tabs: Seq<TabView>, others: Seq<TabView>)
    ensures
        forall|k: int|
            0 <= k < tabs_not_in(tabs, others).len() ==> tabs.contains(
                #[trigger] tabs_not_in(tabs, others)[k],
            ),
        forall|k: int|
            0 <= k < respawned(tabs, others).len() ==> tabs.contains(
                #[trigger] respawned(tabs, others)[k],
            ),
    decreases tabs.len(),
{
    if tabs.len() > 0 {
        let rest = tabs.drop_last();
        lemma_left_are_listed(rest, others);
        assert(tabs[tabs.len() - 1] == tabs.last());
        assert forall|t: TabView| #[trigger] rest.contains(t) implies tabs.contains(t) by {
            let i = choose|i: int| 0 <= i < rest.len() && rest[i] == t;
            assert(tabs[i] == t);
        }
        let a = tabs_not_in(tabs, others);
        let q = tabs_not_in(rest, others);
        assert forall|k: int| 0 <= k < a.len() implies tabs.contains(#[trigger] a[k]) by {
            if k < q.len() {
                assert(a[k] == q[k]);
            }
        }
        let b = respawned(tabs, others);
        let p = respawned(rest, others);
        assert forall|k: int| 0 <= k < b.len() implies tabs.contains(#[trigger] b[k]) by {
            if k < p.len() {
                assert(b[k] == p[k]);
            }
        }
    }
}

/// A tab whose terminal has to be spawned anew is among those that are.
pub proof fn lemma_is_respawned(tabs: Seq<TabView>, old: Seq<TabView>, j: int)
    requires
        0 <= j < tabs.len(),
        first_keyed(old, tabs[j].key) is Some,
        needs_respawn(tabs[j], first_keyed(old, tabs[j].key)->0),
    ensures
        keys_of(respawned(tabs, old)).contains(tabs[j].key),
    decreases tabs.len(),
{
    let rest = tabs.drop_last();
    let a = respawned(tabs, old);
    let p = respawned(rest, old);
    if j < rest.len() {
        lemma_is_respawned(rest, old, j);
        let k = choose|k: int| 0 <= k < keys_of(p).len() && keys_of(p)[k] == tabs[j].key;
        assert(a[k] == p[k]);
        assert(keys_of(a)[k] == tabs[j].key);
    } else {
        assert(keys_of(a)[p.len() as int] == tabs[j].key);
    }
}

/// Metadata that changed is what the listed tab says, and none that changed is
/// left out.
pub proof fn lemma_changed_meta(tabs: Seq<TabView>, old: Seq<TabView>)
    ensures
        forall|k: int|
            0 <= k < changed_meta(tabs, old).len() ==> exists|i: int|
                0 <= i < tabs.len() && #[trigger] changed_meta(tabs, old)[k] == (
                    (#[trigger] tabs[i]).key,
                    meta_of(tabs[i]),
                ),
        forall|i: int|
            0 <= i < tabs.len() && first_keyed(old, (#[trigger] tabs[i]).key) is Some && meta_of(
                first_keyed(old, tabs[i].key)->0,
            ) != meta_of(tabs[i]) ==> changed_meta(tabs, old).contains(
                (tabs[i].key, meta_of(tabs[i])),
            ),
    decreases tabs.len(),
{
    if tabs.len() > 0 {
        let rest = tabs.drop_last();
        let t = tabs.last();
        lemma_changed_meta(rest, old);
        let a = changed_meta(tabs, old);
        let p = changed_meta(rest, old);
        assert(tabs[tabs.len() - 1] == t);
        assert forall|k: int| 0 <= k < a.len() implies exists|i: int|
            0 <= i < tabs.len() && #[trigger] a[k] == (
                (#[trigger] tabs[i]).key,
                meta_of(tabs[i]),
            ) by {
            if k < p.len() {
                assert(a[k] == p[k]);
                let i = choose|i: int|
                    0 <= i < rest.len() && p[k] == ((#[trigger] rest[i]).key, meta_of(rest[i]));
                assert(tabs[i] == rest[i]);
            } else {
                assert(a[k] == (tabs[tabs.len() - 1].key, meta_of(tabs[tabs.len() - 1])));
            }
        }
        assert forall|i: int|
            0 <= i < tabs.len() && first_keyed(old, (#[trigger] tabs[i]).key) is Some && meta_of(
                first_keyed(old, tabs[i].key)->0,
            ) != meta_of(tabs[i]) implies a.contains((tabs[i].key, meta_of(tabs[i]))) by {
            if i < rest.len() {
                assert(rest[i] == tabs[i]);
                let e = (tabs[i].key, meta_of(tabs[i]));
                assert(p.contains(e));
                let k = choose|k: int| 0 <= k < p.len() && p[k] == e;
                assert(a[k] == e);
            } else {
                assert(a[p.len() as int] == (t.key, meta_of(t)));
            }
        }
    }
}

/// What an update makes of one listed tab: it carries what the new
/// configuration says, and where it is new, or its terminal had to be spawned
/// anew, it runs that too.
proof fn lemma_update_agrees<F: Fn(&Ask) -> Outcome>(
    spawn: &F,
    v: RegistryView,
    o: WindowView,
    n: WindowView,
    windows: Seq<WindowView>,
    label: Seq<char>,
    w: RegistryView,
    j: int,
    terminal: bool,
)
    requires
        distinct_keys(o.tabs),
        distinct_keys(n.tabs),
        in_line(v.tabs, keys_of(o.tabs)),
        updating(spawn, v, update_op(windows, changes(o, n), label), w),
        0 <= j < n.tabs.len(),
        !terminal ==> told(v.tabs, o.tabs),
        terminal ==> match first_keyed(o.tabs, n.tabs[j].key) {
            Some(was) => needs_respawn(n.tabs[j], was),
            None => true,
        },
    ensures
        agreed(w.tabs, n.tabs[j], terminal),
{
    let c = n.tabs[j];
    let x = c.key;
    let u = update_op(windows, changes(o, n), label);
    let roots = roots_titled(windows, n.title);
    let mid = choose|mid: RegistryView|
        {
            &&& #[trigger] reconciling(
                spawn,
                v,
                u.remove_tabs,
                u.add_tabs,
                u.respawn_tabs,
                mid,
            )
            &&& reshowing(
                spawn,
                reordered(metas(mid, u.set_meta), u.order),
                v.active,
                u.respawn_tabs,
                w,
            )
        };
    lemma_distinct_keys(o.tabs);
    lemma_distinct_keys(n.tabs);
    lemma_plan_ids(roots, tabs_not_in(n.tabs, o.tabs));
    lemma_plan_ids(roots, respawned(n.tabs, o.tabs));
    lemma_reconciled(spawn, v, o, n, u, mid);
    lemma_left_are_listed(n.tabs, o.tabs);
    lemma_plans_agree(roots, tabs_not_in(n.tabs, o.tabs), n.tabs, j);
    lemma_plans_agree(roots, respawned(n.tabs, o.tabs), n.tabs, j);
    lemma_first_keyed(o.tabs, x);
    lemma_changed_meta(n.tabs, o.tabs);
    let a = removals(v, u.remove_tabs);
    let b = choose|b: RegistryView|
        {
            &&& #[trigger] adding_new(spawn, a, u.add_tabs, b)
            &&& respawning(spawn, b, u.respawn_tabs, mid)
        };
    let vs = choose|vs: Seq<RegistryView>|
        #[trigger] new_additions(spawn, vs, u.add_tabs) && vs[0] == a && vs.last() == b;
    let ws = choose|ws: Seq<RegistryView>|
        #[trigger] respawns(spawn, ws, u.respawn_tabs) && ws[0] == b && ws.last() == mid;
    lemma_reconciled_parts(spawn, v, o, n, u, a, b, vs);
    let all = u.respawn_tabs.len() as int;
    assert(u.respawn_tabs.take(all) =~= u.respawn_tabs);
    lemma_respawns_agree(spawn, ws, u.respawn_tabs, all, c, terminal);
    // Up to the metadata.
    let old = first_keyed(o.tabs, x);
    let same = old is None || terminal || meta_of(old->0) == meta_of(c);
    if old is None || (!terminal && same) {
        assert(agreed(v.tabs, c, terminal)) by {
            assert forall|k: int|
                0 <= k < v.tabs.len() && (#[trigger] v.tabs[k]).id == x && !(
                v.tabs[k].primary.slot is Detached) implies agrees(v.tabs[k], c, terminal) by {
                if old is None {
                    let keys = keys_of(o.tabs);
                    if k < keys.len() {
                        assert(tab_ids(v.tabs).take(keys.len() as int)[k] == x);
                        assert(keys[k] == x);
                        assert(o.tabs[k].key == x);
                    }
                } else {
                    let i = choose|i: int| 0 <= i < o.tabs.len() && o.tabs[i] == old->0;
                    assert(o.tabs[i].key == x);
                    assert(carries(v.tabs[k], o.tabs[i]));
                    assert(meta_of(o.tabs[i]).title == meta_of(c).title);
                    assert(meta_of(o.tabs[i]).group == meta_of(c).group);
                    assert(meta_of(o.tabs[i]).probe == meta_of(c).probe);
                    assert(meta_of(o.tabs[i]).kill == meta_of(c).kill);
                    assert(meta_of(o.tabs[i]).split == meta_of(c).split);
                }
            }
        }
        lemma_removals_agree(v, u.remove_tabs, c, terminal);
        lemma_new_additions_agree(spawn, vs, u.add_tabs, u.add_tabs.len() as int, c, terminal);
        assert(agreed(mid.tabs, c, terminal));
    }
    if old is Some && terminal {
        lemma_is_respawned(n.tabs, o.tabs, j);
        assert(agreed(mid.tabs, c, terminal));
    }
    // The metadata.
    let ms = u.set_meta;
    let cm = changed_meta(n.tabs, o.tabs);
    assert(ms.len() == cm.len());
    assert forall|k: int| 0 <= k < ms.len() implies (#[trigger] ms[k]).id == cm[k].0 && ms[k].meta
        == cm[k].1 by {}
    assert(meta_as(ms, c)) by {
        assert forall|k: int| 0 <= k < ms.len() && (#[trigger] ms[k]).id == x implies ms[k].meta
            == meta_of(c) by {
            assert(cm[k].0 == x);
            let i = choose|i: int|
                0 <= i < n.tabs.len() && cm[k] == ((#[trigger] n.tabs[i]).key, meta_of(n.tabs[i]));
            assert(n.tabs[i].key == n.tabs[j].key);
        }
    }
    lemma_metas_agree(mid, ms, c, terminal);
    if !same {
        assert(cm.contains((x, meta_of(c))));
        let k = choose|k: int| 0 <= k < cm.len() && cm[k] == (x, meta_of(c));
        assert(ms[k].id == x);
    }
    let ready = metas(mid, ms);
    assert(agreed(ready.tabs, c, terminal));
    lemma_reordered_agrees(ready, u.order, c, terminal);
    let sorted = reordered(ready, u.order);
    if v.active is Some && plan_ids(u.respawn_tabs).contains(v.active->0) {
        let r = choose|r: Result<bool, SurfaceError>|
            #[trigger] activation(spawn, sorted, v.active->0, w, r);
        lemma_shown_agrees(spawn, sorted, v.active->0, w, r, c, terminal);
    }
}

/// After a reload every tab of a window that is listed and not popped out has
/// the title, the section, the probe, the kill command and the split that the
/// new configuration gives to the tab with its identity, however the spawns
/// came out.
pub proof fn law_an_update_tells_every_tab<F: Fn(&Ask) -> Outcome>(
    spawn: &F,
    v: RegistryView,
    o: WindowView,
    n: WindowView,
    windows: Seq<WindowView>,
    label: Seq<char>,
    w: RegistryView,
)
    requires
        distinct_keys(o.tabs),
        distinct_keys(n.tabs),
        in_line(v.tabs, keys_of(o.tabs)),
        told(v.tabs, o.tabs),
        updating(spawn, v, update_op(windows, changes(o, n), label), w),
    ensures
        told(w.tabs, n.tabs),
{
    assert forall|k: int, j: int|
        0 <= k < w.tabs.len() && 0 <= j < n.tabs.len() && (#[trigger] w.tabs[k]).id == (
        #[trigger] n.tabs[j]).key && !(w.tabs[k].primary.slot is Detached) implies carries(
        w.tabs[k],
        n.tabs[j],
    ) by {
        lemma_update_agrees(spawn, v, o, n, windows, label, w, j, false);
        assert(agrees(w.tabs[k], n.tabs[j], false));
    }
}

/// Whether a reload has to give a tab a new terminal: it is new, or has an
/// identity of its own and something else to run, or somewhere else.
pub open spec fn starts_anew(c: TabView, old: Seq<TabView>) -> bool {
    forall|i: int|
        0 <= i < old.len() && (#[trigger] old[i]).key == c.key ==> (c.id is Some || old[i].id is Some)
            && (old[i].dir != c.dir || old[i].shell != c.shell || old[i].startup != c.startup)
}

/// After a reload every tab that is not popped out and had to start anew runs
/// what the new configuration says, in the directory and the shell that it
/// says.
pub proof fn law_an_update_starts_tabs_anew<F: Fn(&Ask) -> Outcome>(
    spawn: &F,
    v: RegistryView,
    o: WindowView,
    n: WindowView,
    windows: Seq<WindowView>,
    label: Seq<char>,
    w: RegistryView,
    k: int,
    j: int,
)
    requires
        distinct_keys(o.tabs),
        distinct_keys(n.tabs),
        in_line(v.tabs, keys_of(o.tabs)),
        updating(spawn, v, update_op(windows, changes(o, n), label), w),
        0 <= k < w.tabs.len(),
        0 <= j < n.tabs.len(),
        w.tabs[k].id == n.tabs[j].key,
        !(w.tabs[k].primary.slot is Detached),
        starts_anew(n.tabs[j], o.tabs),
    ensures
        runs_as(w.tabs[k], n.tabs[j]),
{
    lemma_first_keyed(o.tabs, n.tabs[j].key);
    if first_keyed(o.tabs, n.tabs[j].key) is Some {
        let was = first_keyed(o.tabs, n.tabs[j].key)->0;
        let i = choose|i: int| 0 <= i < o.tabs.len() && o.tabs[i] == was;
        assert(o.tabs[i].key == n.tabs[j].key);
    }
    lemma_update_agrees(spawn, v, o, n, windows, label, w, j, true);
    assert(agrees(w.tabs[k], n.tabs[j], true));
}

proof fn lemma_removals_active(v: RegistryView, ids: Seq<Seq<char>>, a: Seq<char>)
    requires
        v.active == Some(a),
    ensures
        !ids.contains(a) ==> removals(v, ids).active == Some(a),
        removals(v, ids).active == Some(a) || removals(v, ids).active is None,
    decreases ids.len(),
{
    if ids.len() > 0 {
        let rest = ids.drop_last();
        lemma_removals_active(v, rest, a);
        assert(ids[ids.len() - 1] == ids.last());
        if !ids.contains(a) {
            assert(!rest.contains(a)) by {
                if rest.contains(a) {
                    let k = choose|k: int| 0 <= k < rest.len() && rest[k] == a;
                    assert(ids[k] == a);
                }
            }
        }
    }
}

proof fn lemma_additions_active<F: Fn(&Ask) -> Outcome>(
    spawn: &F,
    vs: Seq<RegistryView>,
    plans: Seq<TabPlanView>,
    k: int,
)
    requires
        new_additions(spawn, vs, plans),
        0 <= k <= plans.len(),
    ensures
        vs[k].active == vs[0].active,
    decreases k,
{
    if k > 0 {
        lemma_additions_active(spawn, vs, plans, k - 1);
        let plan = plans[k - 1];
        assert(adding_one(spawn, vs[k - 1], plan, vs[k]));
        if !popped_out(vs[k - 1].tabs, plan.spec.id) {
            let r = choose|r: Result<(), SurfaceError>|
                #[trigger] adding(spawn, vs[k - 1], plan.spec, plan.load_on_open, vs[k], r);
            lemma_adding(spawn, vs[k - 1], plan.spec, plan.load_on_open, vs[k], r);
        }
    }
}

proof fn lemma_respawns_active<F: Fn(&Ask) -> Outcome>(
    spawn: &F,
    vs: Seq<RegistryView>,
    plans: Seq<TabPlanView>,
    k: int,
    a: Seq<char>,
)
    requires
        respawns(spawn, vs, plans),
        0 <= k <= plans.len(),
        vs[0].active == Some(a),
        !plan_ids(plans).contains(a),
    ensures
        vs[k].active == Some(a),
    decreases k,
{
    if k > 0 {
        lemma_respawns_active(spawn, vs, plans, k - 1, a);
        let plan = plans[k - 1];
        let v = vs[k - 1];
        assert(plan_ids(plans)[k - 1] == plan.spec.id);
        assert(respawning_one(spawn, v, plan, vs[k]));
        if !popped_out(v.tabs, plan.spec.id) {
            let gone = removed(v, plan.spec.id);
            let r = choose|r: Result<(), SurfaceError>|
                #[trigger] adding(spawn, gone, plan.spec, plan.load_on_open, vs[k], r);
            lemma_adding(spawn, gone, plan.spec, plan.load_on_open, vs[k], r);
        }
    }
}

proof fn lemma_metas_active(v: RegistryView, ms: Seq<MetaPlanView>)
    ensures
        metas(v, ms).active == v.active,
    decreases ms.len(),
{
    if ms.len() > 0 {
        lemma_metas_active(v, ms.drop_last());
    }
}

/// A reload shows on what was shown: a tab that both configurations list stays
/// the one that its window shows, also where it got a new terminal.
pub proof fn law_an_update_shows_on_what_was_shown<F: Fn(&Ask) -> Outcome>(
    spawn: &F,
    v: RegistryView,
    o: WindowView,
    n: WindowView,
    windows: Seq<WindowView>,
    label: Seq<char>,
    w: RegistryView,
    a: Seq<char>,
)
    requires
        distinct_keys(o.tabs),
        distinct_keys(n.tabs),
        in_line(v.tabs, keys_of(o.tabs)),
        updating(spawn, v, update_op(windows, changes(o, n), label), w),
        v.active == Some(a),
        has_key(n.tabs, a),
    ensures
        w.active == Some(a),
{
    let u = update_op(windows, changes(o, n), label);
    let order = keys_of(n.tabs);
    let roots = roots_titled(windows, n.title);
    lemma_distinct_keys(o.tabs);
    lemma_distinct_keys(n.tabs);
    lemma_keys(n.tabs, a);
    let mid = choose|mid: RegistryView|
        {
            &&& #[trigger] reconciling(
                spawn,
                v,
                u.remove_tabs,
                u.add_tabs,
                u.respawn_tabs,
                mid,
            )
            &&& reshowing(
                spawn,
                reordered(metas(mid, u.set_meta), u.order),
                v.active,
                u.respawn_tabs,
                w,
            )
        };
    lemma_plan_ids(roots, tabs_not_in(n.tabs, o.tabs));
    lemma_plan_ids(roots, respawned(n.tabs, o.tabs));
    lemma_reconciled(spawn, v, o, n, u, mid);
    lemma_metas(mid, u.set_meta);
    let ready = metas(mid, u.set_meta);
    lemma_in_line(ready, order);
    let sorted = reordered(ready, order);
    if plan_ids(u.respawn_tabs).contains(a) {
        let r = choose|r: Result<bool, SurfaceError>|
            #[trigger] activation(spawn, sorted, a, w, r);
        law_activating_ends_no_terminal(spawn, sorted, a, w, r);
        lemma_position(sorted.tabs, a);
        let k = choose|k: int| 0 <= k < order.len() && order[k] == a;
        assert(tab_ids(sorted.tabs).take(order.len() as int)[k] == a);
        assert(sorted.tabs[k].id == a);
    } else {
        let first = removals(v, u.remove_tabs);
        let b = choose|b: RegistryView|
            {
                &&& #[trigger] adding_new(spawn, first, u.add_tabs, b)
                &&& respawning(spawn, b, u.respawn_tabs, mid)
            };
        let vs = choose|vs: Seq<RegistryView>|
            #[trigger] new_additions(spawn, vs, u.add_tabs) && vs[0] == first && vs.last() == b;
        let ws = choose|ws: Seq<RegistryView>|
            #[trigger] respawns(spawn, ws, u.respawn_tabs) && ws[0] == b && ws.last() == mid;
        assert(!u.remove_tabs.contains(a)) by {
            lemma_keys(tabs_not_in(o.tabs, n.tabs), a);
            lemma_tabs_not_in(o.tabs, n.tabs, a);
        }
        lemma_removals_active(v, u.remove_tabs, a);
        lemma_additions_active(spawn, vs, u.add_tabs, u.add_tabs.len() as int);
        lemma_respawns_active(spawn, ws, u.respawn_tabs, u.respawn_tabs.len() as int, a);
        lemma_metas_active(mid, u.set_meta);
    }
}

} // verus!
