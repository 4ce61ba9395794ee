//! What holds of every burst, every schedule and every sweep.

use crate::presence::Presence;
use crate::probe::{
    advanced, begun, bumped, bumped_all, changed_since, due_at, exit_meaning, finished,
    fresh_schedule, heated, jobs_of, looked_at, observed, opening_due, ordered, pass_of, queued,
    queued_all, replaced, schedule_at, schedule_from, still_live, substituted, turned, with_opened,
    work_from, workers_for, BumpQueueView, BumpView, CAP, Cadence, FAST, IDLE, ObservationView,
    ScheduleView,
};
use crate::registry::ProbeTargetView;
use crate::text::starts_with;
use vstd::prelude::*;

verus! {

/// A burst ends at its cap, whatever is seen and whatever is awaited.
pub proof fn law_bursts_are_bounded(
    changed: bool,
    agree: u32,
    elapsed: u64,
    slow: u64,
    pending: bool,
)
    requires
        elapsed >= CAP,
    ensures
        !(advanced(changed, agree, elapsed, slow, pending).1 is Fast),
{
}

/// A burst that awaits a change never settles on the state before it.
pub proof fn law_awaiting_holds_the_burst(changed: bool, agree: u32, elapsed: u64, slow: u64)
    requires
        elapsed < CAP,
    ensures
        advanced(changed, agree, elapsed, slow, true) == (0u32, Cadence::Fast),
{
}

/// Without an interval there is no steady poll.
pub proof fn law_no_interval_no_poll(changed: bool, agree: u32, elapsed: u64, pending: bool)
    ensures
        !(advanced(changed, agree, elapsed, 0, pending).1 is Slow),
{
}

/// A window that awaits nothing and is seen unchanged three times in a row
/// settles: the next look is at the slow poll, or comes with a trigger.
pub proof fn law_three_quiet_looks_settle(s: ScheduleView, slow: u64, a: u64, b: u64, c: u64)
    requires
        s.awaiting is None,
    ensures
        ({
            let one = looked_at(s, s.prev, a, slow);
            let two = looked_at(one, s.prev, b, slow);
            let three = looked_at(two, s.prev, c, slow);
            three.next_due == if slow == 0 {
                c + IDLE
            } else {
                c + slow * 1000
            }
        }),
{
    let one = looked_at(s, s.prev, a, slow);
    let two = looked_at(one, s.prev, b, slow);
    assert(one.agree >= 1);
    assert(two.agree >= 2);
}

/// Between the end of a look and the next one there is always a pause, however
/// long the look took.
pub proof fn law_looks_never_pile_up(
    s: ScheduleView,
    new: Map<Seq<char>, Presence>,
    end: u64,
    slow: u64,
)
    ensures
        looked_at(s, new, end, slow).next_due >= end + FAST,
{
}

/// A change that came ends the waiting for it.
pub proof fn law_awaited_change_disarms(
    s: ScheduleView,
    new: Map<Seq<char>, Presence>,
    end: u64,
    slow: u64,
    id: Seq<char>,
    want: bool,
)
    requires
        s.awaiting == Some((id, want)),
        new.contains_key(id),
        want == (new[id] == Presence::Present),
    ensures
        looked_at(s, new, end, slow).awaiting is None,
{
}

/// A request makes a window due at once, and one that names no tab takes
/// nothing away from an earlier one that did.
pub proof fn law_requests_are_due_at_once(s: ScheduleView, b: BumpView, now: u64)
    ensures
        heated(s, b, now).next_due == now,
        heated(s, b, now).agree == 0,
        b.tab is None ==> heated(s, b, now).priority == s.priority && heated(s, b, now).awaiting
            == s.awaiting,
        heated(s, b, now).prev == s.prev,
{
}

proof fn lemma_schedule_from(ws: Seq<ScheduleView>, label: Seq<char>, i: int)
    requires
        0 <= i <= ws.len(),
    ensures
        i <= schedule_from(ws, label, i) <= ws.len(),
        schedule_from(ws, label, i) < ws.len() ==> ws[schedule_from(ws, label, i)].label == label,
        forall|k: int| i <= k < schedule_from(ws, label, i) ==> (#[trigger] ws[k]).label != label,
    decreases ws.len() - i,
{
    if i < ws.len() {
        lemma_schedule_from(ws, label, i + 1);
    }
}

/// Whether a window is scheduled.
pub open spec fn scheduled(ws: Seq<ScheduleView>, label: Seq<char>) -> bool {
    exists|k: int| 0 <= k < ws.len() && (#[trigger] ws[k]).label == label
}

proof fn lemma_scheduled(ws: Seq<ScheduleView>, label: Seq<char>)
    ensures
        scheduled(ws, label) == (schedule_at(ws, label) < ws.len()),
{
    lemma_schedule_from(ws, label, 0);
    if schedule_at(ws, label) < ws.len() {
        assert(ws[schedule_at(ws, label)].label == label);
    }
}

proof fn lemma_still_live(ws: Seq<ScheduleView>, live: Seq<Seq<char>>, label: Seq<char>)
    ensures
        scheduled(still_live(ws, live), label) == (scheduled(ws, label) && live.contains(label)),
    decreases ws.len(),
{
    if ws.len() > 0 {
        let rest = ws.drop_last();
        let w = ws.last();
        lemma_still_live(rest, live, label);
        let q = still_live(rest, live);
        let r = still_live(ws, live);
        if scheduled(ws, label) {
            let k = choose|k: int| 0 <= k < ws.len() && (#[trigger] ws[k]).label == label;
            if k < rest.len() {
                assert(rest[k].label == label);
            }
        }
        if scheduled(rest, label) {
            let k = choose|k: int| 0 <= k < rest.len() && (#[trigger] rest[k]).label == label;
            assert(ws[k].label == label);
        }
        if w.label == label {
            assert(ws[ws.len() - 1].label == label);
        }
        if live.contains(w.label) {
            assert(r[q.len() as int] == w);
            if scheduled(q, label) {
                let k = choose|k: int| 0 <= k < q.len() && (#[trigger] q[k]).label == label;
                assert(r[k].label == label);
            }
            if scheduled(r, label) {
                let k = choose|k: int| 0 <= k < r.len() && (#[trigger] r[k]).label == label;
                if k < q.len() {
                    assert(q[k].label == label);
                }
            }
        }
    }
}

proof fn lemma_with_opened(
    ws: Seq<ScheduleView>,
    live: Seq<Seq<char>>,
    now: u64,
    slow: u64,
    label: Seq<char>,
)
    ensures
        scheduled(with_opened(ws, live, now, slow), label) == (scheduled(ws, label)
            || live.contains(label)),
    decreases live.len(),
{
    if live.len() > 0 {
        let rest = live.drop_last();
        let l = live.last();
        lemma_with_opened(ws, rest, now, slow, label);
        let q = with_opened(ws, rest, now, slow);
        let r = with_opened(ws, live, now, slow);
        lemma_scheduled(q, l);
        if live.contains(label) {
            let k = choose|k: int| 0 <= k < live.len() && live[k] == label;
            if k < rest.len() {
                assert(rest[k] == label);
            }
        }
        if rest.contains(label) {
            let k = choose|k: int| 0 <= k < rest.len() && rest[k] == label;
            assert(live[k] == label);
        }
        if l == label {
            assert(live[live.len() - 1] == label);
        }
        if schedule_at(q, l) >= q.len() {
            assert(r[q.len() as int].label == l);
            if scheduled(q, label) {
                let k = choose|k: int| 0 <= k < q.len() && (#[trigger] q[k]).label == label;
                assert(r[k].label == label);
            }
            if scheduled(r, label) {
                let k = choose|k: int| 0 <= k < r.len() && (#[trigger] r[k]).label == label;
                if k < q.len() {
                    assert(q[k].label == label);
                }
            }
        }
    }
}

/// After every turn exactly the live windows are scheduled.
pub proof fn law_schedules_follow_the_windows(
    ws: Seq<ScheduleView>,
    live: Seq<Seq<char>>,
    now: u64,
    slow: u64,
    label: Seq<char>,
)
    ensures
        scheduled(with_opened(still_live(ws, live), live, now, slow), label) <==> live.contains(
            label,
        ),
{
    lemma_still_live(ws, live, label);
    lemma_with_opened(still_live(ws, live), live, now, slow, label);
}

proof fn lemma_work_from(work: Seq<ProbeTargetView>, id: Seq<char>, i: int)
    requires
        0 <= i <= work.len(),
    ensures
        i <= work_from(work, id, i) <= work.len(),
        work_from(work, id, i) < work.len() ==> work[work_from(work, id, i)].0 == id,
        forall|k: int| i <= k < work_from(work, id, i) ==> (#[trigger] work[k]).0 != id,
    decreases work.len() - i,
{
    if i < work.len() {
        lemma_work_from(work, id, i + 1);
    }
}

/// Ordering a sweep neither adds nor drops a probe, and puts the tab that
/// triggered it first wherever it has one.
pub proof fn law_priority_comes_first(work: Seq<ProbeTargetView>, id: Seq<char>)
    ensures
        ordered(work, Some(id)).to_multiset() == work.to_multiset(),
        (exists|k: int| 0 <= k < work.len() && (#[trigger] work[k]).0 == id) ==> ordered(
            work,
            Some(id),
        )[0].0 == id,
        ordered(work, None) == work,
{
    broadcast use vstd::seq_lib::group_to_multiset_ensures;

    lemma_work_from(work, id, 0);
    let i = work_from(work, id, 0);
    if i < work.len() {
        let rest = work.remove(i);
        let r = ordered(work, Some(id));
        vstd::seq_lib::lemma_multiset_commutative(seq![work[i]], rest);
        assert(seq![work[i]] =~= Seq::empty().push(work[i]));
        assert(seq![work[i]].to_multiset() =~= vstd::multiset::Multiset::singleton(work[i]));
        assert(rest.to_multiset() =~= work.to_multiset().remove(work[i]));
        assert(r.to_multiset() =~= work.to_multiset());
    }
}

/// Text without the token is left as it is.
pub proof fn law_unknown_text_is_verbatim(s: Seq<char>, from: Seq<char>, to: Seq<char>)
    requires
        forall|i: int| 0 <= i < s.len() ==> !starts_with(#[trigger] s.skip(i), from),
    ensures
        replaced(s, from, to) == s,
    decreases s.len(),
{
    if s.len() > 0 && from.len() > 0 {
        assert(s.skip(0) =~= s);
        assert(!starts_with(s.skip(0), from));
        let rest = s.skip(1);
        assert forall|i: int| 0 <= i < rest.len() implies !starts_with(
            #[trigger] rest.skip(i),
            from,
        ) by {
            assert(rest.skip(i) =~= s.skip(i + 1));
        }
        law_unknown_text_is_verbatim(rest, from, to);
        assert(seq![s[0]] + rest =~= s);
    }
}

/// A result is remembered before anything is reported, and reported exactly
/// where it changed.
pub proof fn law_results_are_remembered_first(
    prev: Map<Seq<char>, Presence>,
    id: Seq<char>,
    on: Presence,
)
    ensures
        observed(prev, id, on)[0] == ObservationView::Record(id, on),
        observed(prev, id, on).contains(ObservationView::Emit(id, on)) <==> changed_since(
            prev,
            id,
            on,
        ),
{
    let o = observed(prev, id, on);
    if changed_since(prev, id, on) {
        assert(o[1] == ObservationView::Emit(id, on));
    }
}

/// Whether a look saw a tab running.
pub open spec fn saw_running(new: Map<Seq<char>, Presence>, id: Seq<char>) -> bool {
    new.contains_key(id) && new[id] == Presence::Present
}

/// One look at a window: what it saw, and when it ended.
pub type Look = (Map<Seq<char>, Presence>, u64);

/// The schedule of a window after some looks at it.
pub open spec fn after_looks(s: ScheduleView, looks: Seq<Look>, slow: u64) -> ScheduleView
    decreases looks.len(),
{
    if looks.len() == 0 {
        s
    } else {
        looked_at(after_looks(s, looks.drop_last(), slow), looks.last().0, looks.last().1, slow)
    }
}

/// What the last of some looks saw, where `first` was seen before them.
pub open spec fn last_seen(first: Map<Seq<char>, Presence>, looks: Seq<Look>) -> Map<
    Seq<char>,
    Presence,
> {
    if looks.len() == 0 {
        first
    } else {
        looks.last().0
    }
}

/// When a window is looked at next where nothing is going on in it.
pub open spec fn quiet_due(end: u64, slow: u64) -> int {
    if slow == 0 {
        end + IDLE
    } else {
        end + slow * 1000
    }
}

proof fn lemma_looks(s: ScheduleView, looks: Seq<Look>, slow: u64)
    ensures
        after_looks(s, looks, slow).label == s.label,
        after_looks(s, looks, slow).burst_start == s.burst_start,
        after_looks(s, looks, slow).priority == s.priority,
        after_looks(s, looks, slow).prev == last_seen(s.prev, looks),
        s.awaiting is None ==> after_looks(s, looks, slow).awaiting is None,
    decreases looks.len(),
{
    if looks.len() > 0 {
        lemma_looks(s, looks.drop_last(), slow);
    }
}

/// A burst lasts from the latest request on, whatever came before it and
/// however many looks there were since. A look that ends within the cap and
/// sees something else than the look before it is followed by a quick one. One
/// that ends later is not, and nothing is awaited any more.
pub proof fn law_a_request_starts_a_burst(
    s: ScheduleView,
    b: BumpView,
    now: u64,
    looks: Seq<Look>,
    new: Map<Seq<char>, Presence>,
    end: u64,
    slow: u64,
)
    requires
        now <= end,
    ensures
        ({
            let before = after_looks(heated(s, b, now), looks, slow);
            let after = looked_at(before, new, end, slow);
            &&& end < now + CAP && new != last_seen(s.prev, looks) ==> after.next_due == end + FAST
            &&& end >= now + CAP ==> after.next_due == quiet_due(end, slow) && after.awaiting is None
        }),
{
    lemma_looks(heated(s, b, now), looks, slow);
}

/// A tab that was asked to start or to end is awaited: as long as no look
/// within the cap finds it so, every one of them is followed by a quick one.
/// The first that does ends the waiting.
pub proof fn law_an_awaited_tab_is_watched(
    s: ScheduleView,
    b: BumpView,
    now: u64,
    looks: Seq<Look>,
    slow: u64,
    id: Seq<char>,
    want: bool,
)
    requires
        b.tab == Some(id),
        b.await_present == Some(want),
        looks.len() > 0,
        forall|k: int|
            0 <= k < looks.len() ==> now <= (#[trigger] looks[k]).1 < now + CAP,
        forall|k: int|
            0 <= k < looks.len() - 1 ==> saw_running((#[trigger] looks[k]).0, id) != want,
    ensures
        ({
            let after = after_looks(heated(s, b, now), looks, slow);
            if saw_running(looks.last().0, id) != want {
                &&& after.next_due == looks.last().1 + FAST
                &&& after.awaiting == Some((id, want))
            } else {
                after.awaiting is None
            }
        }),
    decreases looks.len(),
{
    let from = heated(s, b, now);
    let before = looks.drop_last();
    let mid = after_looks(from, before, slow);
    lemma_looks(from, before, slow);
    assert(now <= looks[looks.len() - 1].1 < now + CAP);
    if before.len() > 0 {
        assert forall|k: int| 0 <= k < before.len() implies now <= (#[trigger] before[k]).1 < now
            + CAP by {
            assert(before[k] == looks[k]);
        }
        assert forall|k: int| 0 <= k < before.len() - 1 implies saw_running(
            (#[trigger] before[k]).0,
            id,
        ) != want by {
            assert(before[k] == looks[k]);
        }
        assert(saw_running(looks[looks.len() - 2].0, id) != want);
        assert(before.last() == looks[looks.len() - 2]);
        law_an_awaited_tab_is_watched(s, b, now, before, slow, id, want);
    }
    assert(mid.awaiting == Some((id, want)));
    assert(mid.burst_start == now);
}

/// A request that awaits nothing leaves an earlier waiting as it was, and one
/// that names no tab leaves the tab that comes first. What a request names
/// comes first on the next look, and is awaited as it says.
pub proof fn law_the_latest_named_tab_comes_first(s: ScheduleView, b: BumpView, now: u64)
    ensures
        heated(s, b, now).label == s.label,
        heated(s, b, now).priority == if b.tab is Some {
            b.tab
        } else {
            s.priority
        },
        b.tab is Some && b.await_present is Some ==> heated(s, b, now).awaiting == Some(
            (b.tab->0, b.await_present->0),
        ),
        b.await_present is None ==> heated(s, b, now).awaiting == s.awaiting,
{
}

/// A burst takes three looks in a row that see nothing new before it ends:
/// after the first and the second the next one is quick.
pub proof fn law_two_quiet_looks_do_not_settle(
    s: ScheduleView,
    b: BumpView,
    now: u64,
    first: u64,
    second: u64,
    slow: u64,
)
    requires
        now <= first < now + CAP,
        now <= second < now + CAP,
    ensures
        ({
            let one = looked_at(heated(s, b, now), s.prev, first, slow);
            let two = looked_at(one, s.prev, second, slow);
            one.next_due == first + FAST && two.next_due == second + FAST
        }),
{
    let one = looked_at(heated(s, b, now), s.prev, first, slow);
    assert(one.burst_start == now);
    assert(one.agree <= 1);
}

/// A look that sees something new starts the count of quiet looks again.
pub proof fn law_a_change_starts_the_count_again(
    s: ScheduleView,
    looks: Seq<Look>,
    new: Map<Seq<char>, Presence>,
    first: u64,
    second: u64,
    third: u64,
    slow: u64,
)
    requires
        s.burst_start <= first < s.burst_start + CAP,
        s.burst_start <= second < s.burst_start + CAP,
        s.burst_start <= third < s.burst_start + CAP,
        new != last_seen(s.prev, looks),
    ensures
        ({
            let one = looked_at(after_looks(s, looks, slow), new, first, slow);
            let two = looked_at(one, new, second, slow);
            let three = looked_at(two, new, third, slow);
            one.next_due == first + FAST && two.next_due == second + FAST && three.next_due == third
                + FAST
        }),
{
    lemma_looks(s, looks, slow);
    let one = looked_at(after_looks(s, looks, slow), new, first, slow);
    let two = looked_at(one, new, second, slow);
    assert(one.burst_start == s.burst_start && one.agree == 0);
    assert(two.burst_start == s.burst_start && two.agree <= 1);
}

/// The schedule of a window.
pub open spec fn schedule_of(ws: Seq<ScheduleView>, label: Seq<char>) -> Option<ScheduleView> {
    if schedule_at(ws, label) < ws.len() {
        Some(ws[schedule_at(ws, label)])
    } else {
        None
    }
}

proof fn lemma_pushed(ws: Seq<ScheduleView>, w: ScheduleView, label: Seq<char>, i: int)
    requires
        0 <= i <= ws.len(),
    ensures
        schedule_from(ws.push(w), label, i) == if schedule_from(ws, label, i) < ws.len() {
            schedule_from(ws, label, i)
        } else if w.label == label {
            ws.len() as int
        } else {
            ws.len() as int + 1
        },
    decreases ws.len() - i,
{
    let p = ws.push(w);
    if i < ws.len() {
        lemma_pushed(ws, w, label, i + 1);
        assert(p[i] == ws[i]);
    } else {
        assert(p[i] == w);
        assert(schedule_from(p, label, i + 1) == p.len());
    }
}

proof fn lemma_relabelled(
    ws: Seq<ScheduleView>,
    k: int,
    w: ScheduleView,
    label: Seq<char>,
    i: int,
)
    requires
        0 <= i <= ws.len(),
        0 <= k < ws.len(),
        ws[k].label == w.label,
    ensures
        schedule_from(ws.update(k, w), label, i) == schedule_from(ws, label, i),
    decreases ws.len() - i,
{
    if i < ws.len() {
        lemma_relabelled(ws, k, w, label, i + 1);
    }
}

/// A request reaches the schedule of its window and no other, and a window that
/// had none gets one that has seen nothing.
pub proof fn law_a_request_reaches_its_window(
    ws: Seq<ScheduleView>,
    b: BumpView,
    now: u64,
    label: Seq<char>,
)
    ensures
        ({
            let after = schedule_of(bumped(ws, b, now), label);
            if label != b.label {
                after == schedule_of(ws, label)
            } else {
                &&& after is Some
                &&& after->0.label == label
                &&& after->0.next_due == now
                &&& match schedule_of(ws, label) {
                    Some(s) => after->0 == heated(s, b, now),
                    None => after->0.prev == Map::<Seq<char>, Presence>::empty()
                        && after->0.priority == b.tab,
                }
            }
        }),
{
    lemma_schedule_from(ws, b.label, 0);
    lemma_schedule_from(ws, label, 0);
    let i = schedule_at(ws, b.label);
    if i < ws.len() {
        lemma_relabelled(ws, i, heated(ws[i], b, now), label, 0);
    } else {
        lemma_pushed(
            ws,
            heated(fresh_schedule(b.label, now as int, now), b, now),
            label,
            0,
        );
    }
}

proof fn lemma_bumped_all(ws: Seq<ScheduleView>, bs: Seq<BumpView>, now: u64, label: Seq<char>)
    ensures
        (exists|k: int| 0 <= k < bs.len() && (#[trigger] bs[k]).label == label) ==> schedule_of(
            bumped_all(ws, bs, now),
            label,
        ) is Some && schedule_of(bumped_all(ws, bs, now), label)->0.next_due == now,
        !(exists|k: int| 0 <= k < bs.len() && (#[trigger] bs[k]).label == label) ==> schedule_of(
            bumped_all(ws, bs, now),
            label,
        ) == schedule_of(ws, label),
    decreases bs.len(),
{
    if bs.len() > 0 {
        let before = bs.drop_last();
        lemma_bumped_all(ws, before, now, label);
        law_a_request_reaches_its_window(bumped_all(ws, before, now), bs.last(), now, label);
        assert(bs[bs.len() - 1] == bs.last());
        if exists|k: int| 0 <= k < before.len() && (#[trigger] before[k]).label == label {
            let k = choose|k: int| 0 <= k < before.len() && (#[trigger] before[k]).label == label;
            assert(bs[k].label == label);
        }
        if exists|k: int| 0 <= k < bs.len() && (#[trigger] bs[k]).label == label {
            let k = choose|k: int| 0 <= k < bs.len() && (#[trigger] bs[k]).label == label;
            if k < before.len() {
                assert(before[k].label == label);
            }
        }
    }
}

proof fn lemma_kept_live(ws: Seq<ScheduleView>, live: Seq<Seq<char>>, label: Seq<char>)
    requires
        live.contains(label),
    ensures
        schedule_of(still_live(ws, live), label) == schedule_of(ws, label),
    decreases ws.len(),
{
    if ws.len() > 0 {
        let before = ws.drop_last();
        lemma_kept_live(before, live, label);
        let q = still_live(before, live);
        lemma_schedule_from(q, label, 0);
        lemma_schedule_from(before, label, 0);
        lemma_pushed(before, ws.last(), label, 0);
        assert(before.push(ws.last()) =~= ws);
        if live.contains(ws.last().label) {
            lemma_pushed(q, ws.last(), label, 0);
        }
    }
}

proof fn lemma_opened(
    ws: Seq<ScheduleView>,
    live: Seq<Seq<char>>,
    now: u64,
    slow: u64,
    label: Seq<char>,
)
    ensures
        schedule_of(ws, label) is Some ==> schedule_of(with_opened(ws, live, now, slow), label)
            == schedule_of(ws, label),
        schedule_of(ws, label) is None && live.contains(label) ==> schedule_of(
            with_opened(ws, live, now, slow),
            label,
        ) == Some(fresh_schedule(label, opening_due(now, slow), now)),
        schedule_of(ws, label) is None && !live.contains(label) ==> schedule_of(
            with_opened(ws, live, now, slow),
            label,
        ) is None,
    decreases live.len(),
{
    lemma_schedule_from(ws, label, 0);
    if live.len() > 0 {
        let rest = live.drop_last();
        let l = live.last();
        let q = with_opened(ws, rest, now, slow);
        lemma_opened(ws, rest, now, slow, label);
        lemma_opened(ws, rest, now, slow, l);
        lemma_schedule_from(q, label, 0);
        lemma_schedule_from(q, l, 0);
        if schedule_at(q, l) >= q.len() {
            lemma_pushed(q, fresh_schedule(l, opening_due(now, slow), now), label, 0);
        }
        assert(live[live.len() - 1] == l);
        if rest.contains(label) {
            let k = choose|k: int| 0 <= k < rest.len() && rest[k] == label;
            assert(live[k] == label);
        }
        if live.contains(label) {
            let k = choose|k: int| 0 <= k < live.len() && live[k] == label;
            if k < rest.len() {
                assert(rest[k] == label);
            }
        }
    }
}

proof fn lemma_due(ws: Seq<ScheduleView>, now: u64, label: Seq<char>)
    ensures
        due_at(ws, now).contains(label) <==> exists|k: int|
            0 <= k < ws.len() && (#[trigger] ws[k]).label == label && ws[k].next_due <= now,
    decreases ws.len(),
{
    if ws.len() > 0 {
        let before = ws.drop_last();
        lemma_due(before, now, label);
        let q = due_at(before, now);
        let r = due_at(ws, now);
        assert(ws[ws.len() - 1] == ws.last());
        if q.contains(label) {
            let k = choose|k: int| 0 <= k < q.len() && q[k] == label;
            assert(r[k] == label);
            let j = choose|j: int|
                0 <= j < before.len() && (#[trigger] before[j]).label == label
                    && before[j].next_due <= now;
            assert(ws[j] == before[j]);
        }
        if ws.last().next_due <= now {
            assert(r[q.len() as int] == ws.last().label);
        }
        if r.contains(label) {
            let k = choose|k: int| 0 <= k < r.len() && r[k] == label;
            if k < q.len() {
                assert(q[k] == label);
            }
        }
        if exists|k: int|
            0 <= k < ws.len() && (#[trigger] ws[k]).label == label && ws[k].next_due <= now {
            let k = choose|k: int|
                0 <= k < ws.len() && (#[trigger] ws[k]).label == label && ws[k].next_due <= now;
            if k < before.len() {
                assert(before[k].label == label);
            }
        }
    }
}

/// A window is looked at exactly when a schedule of its own has come due.
pub proof fn law_due_windows_are_looked_at(ws: Seq<ScheduleView>, now: u64, label: Seq<char>)
    ensures
        due_at(ws, now).contains(label) <==> exists|k: int|
            0 <= k < ws.len() && (#[trigger] ws[k]).label == label && ws[k].next_due <= now,
{
    lemma_due(ws, now, label);
}

/// A live window that was asked for is looked at in the same turn. One that was
/// not keeps its schedule, and one that opened waits for the slow poll.
pub proof fn law_a_turn_serves_its_requests(
    ws: Seq<ScheduleView>,
    bs: Seq<BumpView>,
    live: Seq<Seq<char>>,
    now: u64,
    slow: u64,
    label: Seq<char>,
)
    requires
        live.contains(label),
    ensures
        ({
            let after = turned(ws, bs, live, now, slow);
            &&& (exists|k: int| 0 <= k < bs.len() && (#[trigger] bs[k]).label == label)
                ==> due_at(after, now).contains(label)
            &&& !(exists|k: int| 0 <= k < bs.len() && (#[trigger] bs[k]).label == label) ==> {
                match schedule_of(ws, label) {
                    Some(s) => schedule_of(after, label) == Some(s),
                    None => {
                        &&& schedule_of(after, label) is Some
                        &&& schedule_of(after, label)->0.next_due == quiet_due(now, slow)
                        &&& schedule_of(after, label)->0.priority is None
                        &&& schedule_of(after, label)->0.awaiting is None
                        &&& schedule_of(after, label)->0.prev == Map::<
                            Seq<char>,
                            Presence,
                        >::empty()
                    },
                }
            }
        }),
{
    let one = bumped_all(ws, bs, now);
    let two = still_live(one, live);
    let after = turned(ws, bs, live, now, slow);
    lemma_bumped_all(ws, bs, now, label);
    lemma_kept_live(one, live, label);
    lemma_opened(two, live, now, slow, label);
    lemma_schedule_from(after, label, 0);
    lemma_due(after, now, label);
    if exists|k: int| 0 <= k < bs.len() && (#[trigger] bs[k]).label == label {
        let k = schedule_at(after, label);
        assert(after[k].label == label && after[k].next_due <= now);
    }
}

proof fn lemma_replaced_before(a: Seq<char>, b: Seq<char>, from: Seq<char>, to: Seq<char>)
    requires
        from.len() > 0,
        forall|i: int| 0 <= i < a.len() ==> !starts_with(#[trigger] (a + b).skip(i), from),
    ensures
        replaced(a + b, from, to) == a + replaced(b, from, to),
    decreases a.len(),
{
    if a.len() == 0 {
        assert(a + b =~= b);
        assert(a + replaced(b, from, to) =~= replaced(b, from, to));
    } else {
        let s = a + b;
        let rest = a.skip(1);
        assert(s.skip(0) =~= s);
        assert(!starts_with(s.skip(0), from));
        assert(s.skip(1) =~= rest + b);
        assert forall|i: int| 0 <= i < rest.len() implies !starts_with(
            #[trigger] (rest + b).skip(i),
            from,
        ) by {
            assert((rest + b).skip(i) =~= s.skip(i + 1));
        }
        lemma_replaced_before(rest, b, from, to);
        assert(seq![s[0]] + (rest + replaced(b, from, to)) =~= a + replaced(b, from, to));
    }
}

/// Replacing goes from the left: what stands before the first place where the
/// token is stays, the token gives way, and the rest is treated alike.
pub proof fn law_tokens_give_way_from_the_left(
    head: Seq<char>,
    tail: Seq<char>,
    from: Seq<char>,
    to: Seq<char>,
)
    requires
        from.len() > 0,
        forall|i: int|
            0 <= i < head.len() ==> !starts_with(#[trigger] (head + (from + tail)).skip(i), from),
    ensures
        replaced(head + (from + tail), from, to) == head + to + replaced(tail, from, to),
{
    lemma_replaced_before(head, from + tail, from, to);
    assert((from + tail).take(from.len() as int) =~= from);
    assert((from + tail).skip(from.len() as int) =~= tail);
    assert(head + (to + replaced(tail, from, to)) =~= head + to + replaced(tail, from, to));
}

/// A text without an opening brace.
pub open spec fn unbraced(s: Seq<char>) -> bool {
    forall|i: int| 0 <= i < s.len() ==> #[trigger] s[i] != '{'
}

proof fn lemma_unbraced(a: Seq<char>, b: Seq<char>, from: Seq<char>)
    requires
        unbraced(a),
        from.len() > 0,
        from[0] == '{',
    ensures
        forall|i: int| 0 <= i < a.len() ==> !starts_with(#[trigger] (a + b).skip(i), from),
{
    assert forall|i: int| 0 <= i < a.len() implies !starts_with(#[trigger] (a + b).skip(i), from) by {
        let t = (a + b).skip(i);
        assert(t[0] == a[i]);
        if starts_with(t, from) {
            assert(t.take(from.len() as int)[0] == t[0]);
        }
    }
}

/// In a command `{dir}` stands for the tab's directory and `{title}` for its
/// title.
pub proof fn law_commands_are_filled_in(
    a: Seq<char>,
    b: Seq<char>,
    c: Seq<char>,
    dir: Seq<char>,
    title: Seq<char>,
)
    requires
        unbraced(a),
        unbraced(b),
        unbraced(c),
        unbraced(dir),
    ensures
        substituted(a + ("{dir}"@ + (b + ("{title}"@ + c))), dir, title) == a + dir + b + title + c,
        substituted(a + ("{title}"@ + (b + ("{dir}"@ + c))), dir, title) == a + title
            + b + dir + c,
{
    reveal_strlit("{dir}");
    reveal_strlit("{title}");
    let d = "{dir}"@;
    let t = "{title}"@;
    let empty = Seq::<char>::empty();
    // The directory first, then the title.
    let s = a + (d + (b + (t + c)));
    lemma_unbraced(a, d + (b + (t + c)), d);
    law_tokens_give_way_from_the_left(a, b + (t + c), d, dir);
    lemma_unbraced(b, t + c, d);
    lemma_replaced_before(b, t + c, d, dir);
    lemma_title_is_no_dir(c);
    lemma_replaced_before(t, c, d, dir);
    lemma_unbraced(c, empty, d);
    assert(c + empty =~= c);
    lemma_replaced_before(c, empty, d, dir);
    assert(c + replaced(empty, d, dir) =~= c);
    assert(replaced(s, d, dir) =~= (a + dir + b) + (t + c));
    lemma_unbraced(a + dir + b, t + c, t);
    law_tokens_give_way_from_the_left(a + dir + b, c, t, title);
    lemma_unbraced(c, empty, t);
    lemma_replaced_before(c, empty, t, title);
    assert(c + replaced(empty, t, title) =~= c);
    assert((a + dir + b) + title + c =~= a + dir + b + title + c);
    // The title first, then the directory.
    let u = a + (t + (b + (d + c)));
    lemma_unbraced(a, t + (b + (d + c)), d);
    lemma_replaced_before(a, t + (b + (d + c)), d, dir);
    lemma_title_is_no_dir(b + (d + c));
    lemma_replaced_before(t, b + (d + c), d, dir);
    lemma_unbraced(b, d + c, d);
    law_tokens_give_way_from_the_left(b, c, d, dir);
    assert(replaced(u, d, dir) =~= a + (t + (b + dir + c)));
    lemma_unbraced(a, t + (b + dir + c), t);
    law_tokens_give_way_from_the_left(a, b + dir + c, t, title);
    assert(unbraced(b + dir + c));
    lemma_unbraced(b + dir + c, empty, t);
    assert((b + dir + c) + empty =~= b + dir + c);
    lemma_replaced_before(b + dir + c, empty, t, title);
    assert((b + dir + c) + replaced(empty, t, title) =~= b + dir + c);
    assert(a + title + (b + dir + c) =~= a + title + b + dir + c);
}

proof fn lemma_title_is_no_dir(rest: Seq<char>)
    ensures
        forall|i: int|
            0 <= i < "{title}"@.len() ==> !starts_with(
                #[trigger] ("{title}"@ + rest).skip(i),
                "{dir}"@,
            ),
{
    reveal_strlit("{dir}");
    reveal_strlit("{title}");
    let d = "{dir}"@;
    let t = "{title}"@;
    assert forall|i: int| 0 <= i < t.len() implies !starts_with(#[trigger] (t + rest).skip(i), d) by {
        let u = (t + rest).skip(i);
        if starts_with(u, d) {
            assert(u.take(d.len() as int)[0] == u[0]);
            assert(u.take(d.len() as int)[1] == u[1]);
            assert(u[0] == t[i]);
            assert(i == 0);
            assert(u[1] == t[1]);
        }
    }
}

/// Every probe of a sweep runs the command of its own tab, in the directory of
/// that tab, and is told apart by the tab's identity.
pub proof fn law_every_probe_is_of_its_tab(
    work: Seq<ProbeTargetView>,
    priority: Option<Seq<char>>,
    k: int,
)
    requires
        0 <= k < work.len(),
    ensures
        jobs_of(work, priority).len() == work.len(),
        exists|j: int|
            0 <= j < work.len() && {
                &&& (#[trigger] jobs_of(work, priority)[j]).id == work[k].0
                &&& jobs_of(work, priority)[j].dir == work[k].1
                &&& jobs_of(work, priority)[j].cmd == substituted(work[k].3, work[k].1, work[k].2)
            },
{
    let r = ordered(work, priority);
    if priority is Some {
        lemma_work_from(work, priority->0, 0);
        let i = work_from(work, priority->0, 0);
        if i < work.len() {
            assert(work.remove(i).len() == work.len() - 1);
            let j = if k == i {
                0
            } else if k < i {
                k + 1
            } else {
                k
            };
            assert(r[j] == work[k]);
            assert(jobs_of(work, priority)[j].id == work[k].0);
        } else {
            assert(r[k] == work[k]);
            assert(jobs_of(work, priority)[k].id == work[k].0);
        }
    } else {
        assert(r[k] == work[k]);
        assert(jobs_of(work, priority)[k].id == work[k].0);
    }
}

/// The tabs behind the one that comes first keep their order.
pub proof fn law_the_rest_keep_their_order(work: Seq<ProbeTargetView>, id: Seq<char>, a: int, b: int)
    requires
        0 <= a < b < work.len(),
        work[a].0 != id,
        work[b].0 != id,
    ensures
        exists|i: int, j: int|
            0 <= i < j < work.len() && #[trigger] ordered(work, Some(id))[i] == work[a]
                && #[trigger] ordered(work, Some(id))[j] == work[b],
{
    lemma_work_from(work, id, 0);
    let p = work_from(work, id, 0);
    let r = ordered(work, Some(id));
    if p < work.len() {
        let i = if a < p {
            a + 1
        } else {
            a
        };
        let j = if b < p {
            b + 1
        } else {
            b
        };
        assert(r[i] == work[a] && r[j] == work[b]);
    } else {
        assert(r[a] == work[a] && r[b] == work[b]);
    }
}

/// A result is reported exactly where the look before did not see the same, and
/// a tab that was never looked at counts as changed.
pub proof fn law_only_changes_are_reported(
    prev: Map<Seq<char>, Presence>,
    id: Seq<char>,
    on: Presence,
)
    ensures
        observed(prev, id, on).contains(ObservationView::Emit(id, on)) <==> (prev.contains_key(id)
            ==> prev[id] != on),
        forall|k: int|
            0 <= k < observed(prev, id, on).len() ==> {
                ||| #[trigger] observed(prev, id, on)[k] == ObservationView::Record(id, on)
                ||| observed(prev, id, on)[k] == ObservationView::Emit(id, on)
            },
        observed(prev, id, on).len() <= 2,
{
    law_results_are_remembered_first(prev, id, on);
}

/// A sweep has as many workers as it is allowed and has work for, and never
/// none where there is work.
pub proof fn law_workers_fit_the_work(concurrency: usize, jobs: usize)
    ensures
        workers_for(concurrency, jobs) <= jobs,
        jobs > 0 ==> workers_for(concurrency, jobs) > 0,
        concurrency > 0 ==> workers_for(concurrency, jobs) <= concurrency,
        workers_for(concurrency, jobs) == jobs || workers_for(concurrency, jobs) == concurrency
            || (concurrency == 0 && workers_for(concurrency, jobs) == 1),
{
}

/// Asking for every window asks once for each, in their order and for no tab
/// of theirs; where nobody waits for requests nothing is kept.
pub proof fn law_every_window_is_asked_for(q: BumpQueueView, labels: Seq<Seq<char>>)
    ensures
        queued_all(q, labels).installed == q.installed,
        !q.installed ==> queued_all(q, labels).bumps == q.bumps,
        q.installed ==> {
            &&& queued_all(q, labels).bumps.len() == q.bumps.len() + labels.len()
            &&& queued_all(q, labels).bumps.take(q.bumps.len() as int) == q.bumps
            &&& forall|k: int|
                0 <= k < labels.len() ==> {
                    let b = #[trigger] queued_all(q, labels).bumps[q.bumps.len() + k];
                    b.label == labels[k] && b.tab is None && b.await_present is None
                }
        },
    decreases labels.len(),
{
    if labels.len() > 0 {
        law_every_window_is_asked_for(q, labels.drop_last());
        if q.installed {
            let r = queued_all(q, labels).bumps;
            let before = queued_all(q, labels.drop_last()).bumps;
            assert(r.take(q.bumps.len() as int) =~= before.take(q.bumps.len() as int));
            assert forall|k: int| 0 <= k < labels.len() implies {
                let b = #[trigger] r[q.bumps.len() + k];
                b.label == labels[k] && b.tab is None && b.await_present is None
            } by {
                if k < labels.len() - 1 {
                    assert(r[q.bumps.len() + k] == before[q.bumps.len() + k]);
                }
            }
        }
    } else {
        assert(q.bumps.take(q.bumps.len() as int) =~= q.bumps);
    }
}

/// A probe says that its tab runs by ending well, and that it can be recovered
/// by one code of its own; whatever else comes of it, the tab is off.
pub proof fn law_only_two_codes_say_anything(code: Option<i32>)
    ensures
        exit_meaning(code) == Presence::Present <==> code == Some(0i32),
        exit_meaning(code) == Presence::Recoverable <==> code == Some(3i32),
{
}

/// A look at a window takes the tab that comes first once, and its end decides
/// when that window is looked at again; both leave every other window's
/// schedule alone.
pub proof fn law_a_look_is_of_its_window(
    ws: Seq<ScheduleView>,
    label: Seq<char>,
    other: Seq<char>,
    new: Map<Seq<char>, Presence>,
    end: u64,
    slow: u64,
)
    ensures
        other != label ==> schedule_of(begun(ws, label), other) == schedule_of(ws, other)
            && schedule_of(finished(ws, label, new, end, slow), other) == schedule_of(ws, other),
        schedule_of(ws, label) matches Some(s) ==> {
            let b = schedule_of(begun(ws, label), label);
            let f = schedule_of(finished(ws, label, new, end, slow), label);
            &&& b is Some && b->0.priority is None
            &&& b->0.next_due == s.next_due && b->0.prev == s.prev && b->0.awaiting == s.awaiting
            &&& b->0.agree == s.agree && b->0.burst_start == s.burst_start
            &&& f is Some && f->0.prev == new && f->0.priority == s.priority
            &&& f->0.next_due >= end + FAST
            &&& f->0.burst_start == s.burst_start
        },
        schedule_of(ws, label) is None ==> begun(ws, label) == ws && finished(
            ws,
            label,
            new,
            end,
            slow,
        ) == ws,
{
    lemma_schedule_from(ws, label, 0);
    lemma_schedule_from(ws, other, 0);
    let i = schedule_at(ws, label);
    if i < ws.len() {
        let b = ScheduleView { priority: None, ..ws[i] };
        let f = looked_at(ws[i], new, end, slow);
        lemma_relabelled(ws, i, b, label, 0);
        lemma_relabelled(ws, i, b, other, 0);
        lemma_relabelled(ws, i, f, label, 0);
        lemma_relabelled(ws, i, f, other, 0);
    }
}

/// A request is kept as it was made, behind those that wait already.
pub proof fn law_requests_wait_in_line(q: BumpQueueView, b: BumpView)
    ensures
        q.installed ==> queued(q, b).bumps.len() == q.bumps.len() + 1 && queued(q, b).bumps.last()
            == b && queued(q, b).bumps.drop_last() == q.bumps,
        !q.installed ==> queued(q, b) == q,
        queued(q, b).installed == q.installed,
{
    if q.installed {
        assert(queued(q, b).bumps.drop_last() =~= q.bumps);
    }
}

/// A look begins with the tab that the latest request names, and with an
/// earlier one where that names none; it knows what the look before it saw, and
/// the look after it begins with no tab in particular.
pub proof fn law_a_look_begins_as_asked(
    ws: Seq<ScheduleView>,
    b: BumpView,
    now: u64,
    new: Map<Seq<char>, Presence>,
    end: u64,
    slow: u64,
)
    ensures
        ({
            let asked = bumped(ws, b, now);
            let pass = pass_of(asked, b.label);
            &&& pass is Some
            &&& b.tab is Some ==> (pass->0).0 == b.tab
            &&& b.tab is None ==> (pass->0).0 == match pass_of(ws, b.label) {
                Some(p) => p.0,
                None => None,
            }
            &&& (pass->0).1 == match pass_of(ws, b.label) {
                Some(p) => p.1,
                None => Map::empty(),
            }
            &&& pass_of(finished(begun(asked, b.label), b.label, new, end, slow), b.label) == Some(
                (None::<Seq<char>>, new),
            )
        }),
{
    let asked = bumped(ws, b, now);
    law_a_request_reaches_its_window(ws, b, now, b.label);
    law_a_look_is_of_its_window(asked, b.label, b.label, new, end, slow);
    law_a_look_is_of_its_window(begun(asked, b.label), b.label, b.label, new, end, slow);
}

} // verus!
