//! When to look for sessions: bursts after every trigger, a slow poll once
//! nothing changes, and what each look reports.

use crate::presence::{Presence, PresenceMap};
use crate::registry::{target_views, ProbeTarget, ProbeTargetView};
use crate::text::{
    chars_of, copy_opt, found_at, holds, opt_str, opt_view, owned, same, starts_with, views,
};
use vstd::prelude::*;

verus! {

/// Milliseconds between looks while a window is in a burst.
pub const FAST: u64 = 400;

/// Milliseconds after which the scheduler wakes at the latest.
pub const TICK: u64 = 200;

/// Milliseconds after which a burst ends, settled or not.
pub const CAP: u64 = 20_000;

/// How many looks in a row must agree for a window to count as settled.
pub const AGREE_TARGET: u32 = 3;

/// Milliseconds that one probe may take.
pub const PROBE_TIMEOUT: u64 = 5_000;

/// How many probes of one window may run at once.
pub const MAX_PROBE_CONCURRENCY: usize = 16;

/// Milliseconds in a year: an idle window is not due before that.
pub const IDLE: u64 = 31_536_000_000;

/// When to look at a window again.
#[derive(Debug, Clone, Copy, PartialEq, Eq, Structural)]
pub enum Cadence {
    /// Soon: the burst goes on.
    Fast,
    /// After this many seconds.
    Slow(u64),
    /// Only after the next trigger.
    Idle,
}

/// Whether the change that a trigger expects of a tab has not come yet.
pub open spec fn still_awaited(now: Presence, want_present: bool) -> bool {
    if want_present {
        now != Presence::Present
    } else {
        now == Presence::Present
    }
}

/// Whether the change that a trigger expects of a tab has not come yet: with
/// `want_present` its session should come up, without it should go down.
pub fn await_pending(now: Presence, want_present: bool) -> (r: bool)
    ensures
        r == still_awaited(now, want_present),
{
    if want_present {
        now != Presence::Present
    } else {
        now == Presence::Present
    }
}

/// How many looks agree after one more.
pub open spec fn agreement(changed: bool, agree: u32) -> u32 {
    if changed {
        0
    } else if agree == u32::MAX {
        u32::MAX
    } else {
        (agree + 1) as u32
    }
}

/// The agreement count and the cadence after a look.
pub open spec fn advanced(
    changed: bool,
    agree: u32,
    elapsed: u64,
    slow_secs: u64,
    awaiting_pending: bool,
) -> (u32, Cadence) {
    if awaiting_pending && elapsed < CAP {
        (0, Cadence::Fast)
    } else {
        let n = agreement(changed, agree);
        if n >= AGREE_TARGET || elapsed >= CAP {
            (
                n,
                if slow_secs == 0 {
                    Cadence::Idle
                } else {
                    Cadence::Slow(slow_secs)
                },
            )
        } else {
            (n, Cadence::Fast)
        }
    }
}

/// The agreement count and the cadence to adopt after a look: whether it saw a
/// change, how many looks agreed before it, how long the burst has run, the
/// slow poll, and whether a trigger still awaits a change.
pub fn advance(
    changed: bool,
    agree: u32,
    elapsed: u64,
    slow_secs: u64,
    awaiting_pending: bool,
) -> (r: (u32, Cadence))
    ensures
        r == advanced(changed, agree, elapsed, slow_secs, awaiting_pending),
{
    let capped: bool = elapsed >= CAP;
    if awaiting_pending && !capped {
        return (0, Cadence::Fast);
    }
    let n: u32 = if changed {
        0
    } else {
        agree.saturating_add(1)
    };
    if n >= AGREE_TARGET || capped {
        if slow_secs == 0 {
            (n, Cadence::Idle)
        } else {
            (n, Cadence::Slow(slow_secs))
        }
    } else {
        (n, Cadence::Fast)
    }
}

/// The time of the next look that is due after `now` at a cadence.
pub open spec fn due_after(now: u64, c: Cadence) -> int {
    match c {
        Cadence::Fast => now + FAST,
        Cadence::Slow(secs) => now + secs * 1000,
        Cadence::Idle => now + IDLE,
    }
}

/// A time at which an idle window is due: so late that only a trigger wakes it.
pub fn idle_due(now: u64) -> (r: u128)
    ensures
        r == now + IDLE,
{
    now as u128 + IDLE as u128
}

fn next_due(now: u64, c: Cadence) -> (r: u128)
    ensures
        r == due_after(now, c),
{
    match c {
        Cadence::Fast => now as u128 + FAST as u128,
        Cadence::Slow(secs) => now as u128 + secs as u128 * 1000,
        Cadence::Idle => idle_due(now),
    }
}

/// Whether a tab's presence differs from what the last look saw; a tab that it
/// did not see counts as changed.
pub open spec fn changed_since(
    prev: Map<Seq<char>, Presence>,
    id: Seq<char>,
    on: Presence,
) -> bool {
    !(prev.contains_key(id) && prev[id] == on)
}

/// Whether a tab's presence has to be reported anew.
pub fn presence_changed(prev: &PresenceMap, id: &str, on: Presence) -> (r: bool)
    ensures
        r == changed_since(prev@, id@, on),
{
    match prev.get(id) {
        Some(p) => p != on,
        None => true,
    }
}

/// What is done with one probe result.
#[derive(Debug, Clone, PartialEq)]
pub enum Observation {
    /// Remember it.
    Record(String, Presence),
    /// Report it to the chrome.
    Emit(String, Presence),
}

pub ghost enum ObservationView {
    Record(Seq<char>, Presence),
    Emit(Seq<char>, Presence),
}

impl View for Observation {
    type V = ObservationView;

    open spec fn view(&self) -> ObservationView {
        match self {
            Observation::Record(id, on) => ObservationView::Record(id@, *on),
            Observation::Emit(id, on) => ObservationView::Emit(id@, *on),
        }
    }
}

/// What is done with a probe result: it is remembered first, and reported only
/// where it changed. The order matters: a report may be lost to a chrome that
/// is not listening yet, and what it asks for then is what is remembered.
pub open spec fn observed(
    prev: Map<Seq<char>, Presence>,
    id: Seq<char>,
    on: Presence,
) -> Seq<ObservationView> {
    if changed_since(prev, id, on) {
        seq![ObservationView::Record(id, on), ObservationView::Emit(id, on)]
    } else {
        seq![ObservationView::Record(id, on)]
    }
}

/// What is done with one probe result, in order.
pub fn observe(prev: &PresenceMap, id: &str, on: Presence) -> (r: Vec<Observation>)
    ensures
        r@.map_values(|o: Observation| o@) == observed(prev@, id@, on),
{
    let mut out: Vec<Observation> = Vec::new();
    out.push(Observation::Record(owned(id), on));
    if presence_changed(prev, id, on) {
        out.push(Observation::Emit(owned(id), on));
    }
    assert(out@.map_values(|o: Observation| o@) =~= observed(prev@, id@, on));
    out
}

/// `s` with every `from` replaced by `to`, from left to right.
pub open spec fn replaced(s: Seq<char>, from: Seq<char>, to: Seq<char>) -> Seq<char>
    decreases s.len(),
{
    if s.len() == 0 || from.len() == 0 {
        s
    } else if starts_with(s, from) {
        to + replaced(s.skip(from.len() as int), from, to)
    } else {
        seq![s[0]] + replaced(s.skip(1), from, to)
    }
}

/// `s` with every `from` replaced by `to`, from left to right.
pub fn replace_all(s: &str, from: &str, to: &str) -> (r: String)
    ensures
        r@ == replaced(s@, from@, to@),
{
    let cs: Vec<char> = chars_of(s);
    let fs: Vec<char> = chars_of(from);
    if fs.len() == 0 {
        return owned(s);
    }
    let mut out: String = String::new();
    let mut i: usize = 0;
    assert(cs@.skip(0) =~= cs@);
    assert(out@ + replaced(cs@.skip(0), from@, to@) =~= replaced(s@, from@, to@));
    while i < cs.len()
        invariant
            i <= cs.len(),
            fs@ == from@,
            fs.len() > 0,
            cs@ == s@,
            out@ + replaced(cs@.skip(i as int), from@, to@) == replaced(s@, from@, to@),
        decreases cs.len() - i,
    {
        let ghost rest = cs@.skip(i as int);
        let ghost before = out@;
        if found_at(&cs, i, &fs) {
            assert(rest.skip(fs@.len() as int) =~= cs@.skip(i + fs@.len()));
            out.append(to);
            i = i + fs.len();
            assert(out@ + replaced(cs@.skip(i as int), from@, to@) =~= before + (to@ + replaced(
                cs@.skip(i as int),
                from@,
                to@,
            )));
        } else {
            assert(rest.skip(1) =~= cs@.skip(i + 1));
            assert(rest[0] == cs@[i as int]);
            out.push(cs[i]);
            i = i + 1;
            assert(out@ + replaced(cs@.skip(i as int), from@, to@) =~= before + (seq![rest[0]]
                + replaced(cs@.skip(i as int), from@, to@)));
        }
    }
    assert(cs@.skip(i as int) =~= Seq::empty());
    assert(out@ + Seq::<char>::empty() =~= out@);
    out
}

/// A command with its tokens filled in: `{dir}`, then `{title}`.
pub open spec fn substituted(cmd: Seq<char>, dir: Seq<char>, title: Seq<char>) -> Seq<char> {
    replaced(replaced(cmd, "{dir}"@, dir), "{title}"@, title)
}

/// Fill a command's tokens in: `{dir}` with the directory, `{title}` with the
/// tab's label. Everything else is left as it is.
pub fn substitute(probe: &str, dir: &str, title: &str) -> (r: String)
    ensures
        r@ == substituted(probe@, dir@, title@),
{
    let half: String = replace_all(probe, "{dir}", dir);
    replace_all(half.as_str(), "{title}", title)
}

/// What the exit of a probe means: only a clean zero or three says anything.
pub open spec fn exit_meaning(code: Option<i32>) -> Presence {
    match code {
        Some(0) => Presence::Present,
        Some(3) => Presence::Recoverable,
        _ => Presence::Absent,
    }
}

/// What was seen of a running probe.
#[derive(Debug, Clone, Copy, PartialEq, Eq, Structural)]
pub enum ProbeEvent {
    /// It could not be started.
    SpawnFailed,
    /// It ended, with a code unless a signal ended it.
    Exited(Option<i32>),
    /// It runs, and has run for this many milliseconds.
    Running(u64),
    /// It cannot be waited for.
    WaitFailed,
}

/// What to do about a running probe.
#[derive(Debug, Clone, Copy, PartialEq, Eq, Structural)]
pub enum ProbeStep {
    /// Report this.
    Report(Presence),
    /// End it, and report that there is no session.
    Kill,
    /// Look again a little later.
    Wait,
}

/// What to do about a running probe. A probe that cannot run, or runs too
/// long, means no session, never one that can be restored.
pub fn probe_step(event: ProbeEvent) -> (r: ProbeStep)
    ensures
        r == (match event {
            ProbeEvent::SpawnFailed | ProbeEvent::WaitFailed => ProbeStep::Report(Presence::Absent),
            ProbeEvent::Exited(code) => ProbeStep::Report(exit_meaning(code)),
            ProbeEvent::Running(ms) => if ms >= PROBE_TIMEOUT {
                ProbeStep::Kill
            } else {
                ProbeStep::Wait
            },
        }),
{
    match event {
        ProbeEvent::SpawnFailed => ProbeStep::Report(Presence::Absent),
        ProbeEvent::WaitFailed => ProbeStep::Report(Presence::Absent),
        ProbeEvent::Exited(code) => {
            let found: Presence = match code {
                Some(0) => Presence::Present,
                Some(3) => Presence::Recoverable,
                _ => Presence::Absent,
            };
            ProbeStep::Report(found)
        },
        ProbeEvent::Running(ms) => {
            if ms >= PROBE_TIMEOUT {
                ProbeStep::Kill
            } else {
                ProbeStep::Wait
            }
        },
    }
}

/// The index from `i` on of the work for tab `id`; the number of items where
/// there is none.
pub open spec fn work_from(work: Seq<ProbeTargetView>, id: Seq<char>, i: int) -> int
    decreases work.len() - i,
{
    if i >= work.len() {
        work.len() as int
    } else if work[i].0 == id {
        i
    } else {
        work_from(work, id, i + 1)
    }
}

/// `work` with the item for the given tab first; as it was where there is none.
pub open spec fn ordered(work: Seq<ProbeTargetView>, priority: Option<Seq<char>>) -> Seq<
    ProbeTargetView,
> {
    match priority {
        Some(id) => {
            let i = work_from(work, id, 0);
            if i < work.len() {
                seq![work[i]] + work.remove(i)
            } else {
                work
            }
        },
        None => work,
    }
}

/// Put the work for the given tab first; the rest keeps its order.
pub fn order_work(work: &mut Vec<ProbeTarget>, priority: Option<&str>)
    ensures
        target_views(final(work)@) == ordered(target_views(old(work)@), opt_str(priority)),
{
    let ghost wv = target_views(work@);
    match priority {
        None => {},
        Some(id) => {
            let mut i: usize = 0;
            while i < work.len()
                invariant
                    i <= work.len(),
                    work@ == old(work)@,
                    wv == target_views(work@),
                    priority == Some(id),
                    work_from(wv, id@, 0) == work_from(wv, id@, i as int),
                decreases work.len() - i,
            {
                assert(wv[i as int].0 == work@[i as int].0@);
                if same(work[i].0.as_str(), id) {
                    let first: ProbeTarget = work.remove(i);
                    work.insert(0, first);
                    assert(target_views(work@) =~= ordered(wv, opt_str(priority)));
                    return;
                }
                i = i + 1;
            }
            assert(wv.len() == work@.len());
        },
    }
}

/// A probe to run: for which tab, what, and where.
#[derive(Debug, Clone, PartialEq)]
pub struct ProbeJob {
    pub id: String,
    pub cmd: String,
    pub dir: String,
}

pub ghost struct ProbeJobView {
    pub id: Seq<char>,
    pub cmd: Seq<char>,
    pub dir: Seq<char>,
}

impl View for ProbeJob {
    type V = ProbeJobView;

    open spec fn view(&self) -> ProbeJobView {
        ProbeJobView { id: self.id@, cmd: self.cmd@, dir: self.dir@ }
    }
}

/// The probes of one sweep, in the order in which they are to be claimed.
pub open spec fn jobs_of(work: Seq<ProbeTargetView>, priority: Option<Seq<char>>) -> Seq<
    ProbeJobView,
> {
    ordered(work, priority).map_values(
        |t: ProbeTargetView|
            ProbeJobView { id: t.0, cmd: substituted(t.3, t.1, t.2), dir: t.1 },
    )
}

/// The probes of one sweep, in the order in which workers are to claim them:
/// the tab that triggered it first.
pub fn sweep_jobs(work: Vec<ProbeTarget>, priority: Option<&str>) -> (r: Vec<ProbeJob>)
    ensures
        r@.map_values(|j: ProbeJob| j@) == jobs_of(target_views(work@), opt_str(priority)),
{
    let ghost wv = target_views(work@);
    let mut work = work;
    order_work(&mut work, priority);
    let ghost ov = ordered(wv, opt_str(priority));
    let ghost want = jobs_of(wv, opt_str(priority));
    assert(ov == target_views(work@));
    let mut out: Vec<ProbeJob> = Vec::new();
    let mut i: usize = 0;
    while i < work.len()
        invariant
            i <= work.len(),
            ov == target_views(work@),
            want == ov.map_values(
                |t: ProbeTargetView|
                    ProbeJobView { id: t.0, cmd: substituted(t.3, t.1, t.2), dir: t.1 },
            ),
            out.len() == i,
            forall|k: int| 0 <= k < i ==> #[trigger] out@[k]@ == want[k],
        decreases work.len() - i,
    {
        let t: &ProbeTarget = &work[i];
        assert(ov[i as int] == (t.0@, t.1@, t.2@, t.3@));
        out.push(
            ProbeJob {
                id: t.0.clone(),
                cmd: substitute(t.3.as_str(), t.1.as_str(), t.2.as_str()),
                dir: t.1.clone(),
            },
        );
        i = i + 1;
    }
    assert(out@.map_values(|j: ProbeJob| j@) =~= want);
    out
}

/// How many workers sweep `jobs` probes: as many as may run at once, but at
/// least one and never more than there are probes.
pub open spec fn workers_for(concurrency: usize, jobs: usize) -> usize {
    if concurrency == 0 && jobs > 0 {
        1
    } else if concurrency < jobs {
        concurrency
    } else {
        jobs
    }
}

/// How many workers sweep `jobs` probes.
pub fn sweep_workers(concurrency: usize, jobs: usize) -> (r: usize)
    ensures
        r == workers_for(concurrency, jobs),
{
    let n: usize = if concurrency == 0 {
        1
    } else {
        concurrency
    };
    if n < jobs {
        n
    } else {
        jobs
    }
}

/// A request to look at a window at once.
#[derive(Debug, PartialEq)]
pub struct Bump {
    pub label: String,
    /// The tab that triggered it, to be looked at first.
    pub tab: Option<String>,
    /// Whether that tab's session should come up or go down.
    pub await_present: Option<bool>,
}

pub ghost struct BumpView {
    pub label: Seq<char>,
    pub tab: Option<Seq<char>>,
    pub await_present: Option<bool>,
}

impl View for Bump {
    type V = BumpView;

    open spec fn view(&self) -> BumpView {
        BumpView {
            label: self.label@,
            tab: opt_view(self.tab),
            await_present: self.await_present,
        }
    }
}

/// The requests that wait for the scheduler. Before a scheduler is installed
/// nothing is queued.
pub struct BumpQueue {
    installed: bool,
    bumps: Vec<Bump>,
}

pub ghost struct BumpQueueView {
    pub installed: bool,
    pub bumps: Seq<BumpView>,
}

impl View for BumpQueue {
    type V = BumpQueueView;

    closed spec fn view(&self) -> BumpQueueView {
        BumpQueueView {
            installed: self.installed,
            bumps: self.bumps@.map_values(|b: Bump| b@),
        }
    }
}

/// The queue with one more request, where there is a scheduler.
pub open spec fn queued(q: BumpQueueView, b: BumpView) -> BumpQueueView {
    if q.installed {
        BumpQueueView { bumps: q.bumps.push(b), ..q }
    } else {
        q
    }
}

impl BumpQueue {
    /// A queue without a scheduler.
    pub fn new() -> (r: BumpQueue)
        ensures
            r@ == (BumpQueueView { installed: false, bumps: Seq::empty() }),
    {
        let r = BumpQueue { installed: false, bumps: Vec::new() };
        assert(r@.bumps =~= Seq::empty());
        r
    }

    /// Take every waiting request.
    pub fn drain(&mut self) -> (r: Vec<Bump>)
        ensures
            r@.map_values(|b: Bump| b@) == old(self)@.bumps,
            final(self)@ == (BumpQueueView { bumps: Seq::empty(), ..old(self)@ }),
    {
        let mut out: Vec<Bump> = Vec::new();
        core::mem::swap(&mut out, &mut self.bumps);
        assert(self@.bumps =~= Seq::empty());
        out
    }
}

/// From now on a scheduler takes the requests of the queue.
pub fn install_bump_tx(q: &mut BumpQueue)
    ensures
        final(q)@ == (BumpQueueView { installed: true, ..old(q)@ }),
{
    q.installed = true;
}

fn send_bump(q: &mut BumpQueue, label: &str, tab: Option<String>, await_present: Option<bool>)
    ensures
        final(q)@ == queued(
            old(q)@,
            BumpView { label: label@, tab: opt_view(tab), await_present },
        ),
{
    if q.installed {
        let b: Bump = Bump { label: owned(label), tab, await_present };
        let ghost bv = b@;
        q.bumps.push(b);
        assert(q@.bumps =~= old(q)@.bumps.push(bv));
    }
}

/// Ask for a burst of looks at a window.
pub fn bump(q: &mut BumpQueue, label: &str)
    ensures
        final(q)@ == queued(
            old(q)@,
            BumpView { label: label@, tab: None, await_present: None },
        ),
{
    send_bump(q, label, None, None);
}

/// Ask for a burst of looks at a window, at one tab first.
pub fn bump_tab(q: &mut BumpQueue, label: &str, tab: &str)
    ensures
        final(q)@ == queued(
            old(q)@,
            BumpView { label: label@, tab: Some(tab@), await_present: None },
        ),
{
    send_bump(q, label, Some(owned(tab)), None);
}

/// Ask for a burst of looks at a window that lasts until one tab's session came
/// up, or went down.
pub fn bump_tab_await(q: &mut BumpQueue, label: &str, tab: &str, want_present: bool)
    ensures
        final(q)@ == queued(
            old(q)@,
            BumpView { label: label@, tab: Some(tab@), await_present: Some(want_present) },
        ),
{
    send_bump(q, label, Some(owned(tab)), Some(want_present));
}

/// The queue with a request for each of `labels`.
pub open spec fn queued_all(q: BumpQueueView, labels: Seq<Seq<char>>) -> BumpQueueView
    decreases labels.len(),
{
    if labels.len() == 0 {
        q
    } else {
        queued(
            queued_all(q, labels.drop_last()),
            BumpView { label: labels.last(), tab: None, await_present: None },
        )
    }
}

/// Ask for a burst of looks at every window.
pub fn bump_all(q: &mut BumpQueue, labels: &Vec<String>)
    ensures
        final(q)@ == queued_all(old(q)@, views(labels@)),
{
    let ghost lv = views(labels@);
    let mut i: usize = 0;
    assert(lv.take(0) =~= Seq::empty());
    while i < labels.len()
        invariant
            i <= labels.len(),
            lv == views(labels@),
            q@ == queued_all(old(q)@, lv.take(i as int)),
        decreases labels.len() - i,
    {
        assert(lv.take(i + 1).drop_last() =~= lv.take(i as int));
        assert(lv.take(i + 1).last() == labels@[i as int]@);
        bump(q, labels[i].as_str());
        i = i + 1;
    }
    assert(lv.take(i as int) =~= lv);
}

/// What the scheduler keeps of one window. Times are in milliseconds.
pub struct WindowSchedule {
    pub label: String,
    /// When the window is looked at next.
    pub next_due: u128,
    /// What the last look saw.
    pub prev: PresenceMap,
    /// How many looks in a row agreed.
    pub agree: u32,
    /// When the burst began.
    pub burst_start: u64,
    /// The tab to look at first, on the next look only.
    pub priority: Option<String>,
    /// The tab whose session should come up or go down before the burst ends.
    pub awaiting: Option<(String, bool)>,
}

pub ghost struct ScheduleView {
    pub label: Seq<char>,
    pub next_due: int,
    pub prev: Map<Seq<char>, Presence>,
    pub agree: u32,
    pub burst_start: u64,
    pub priority: Option<Seq<char>>,
    pub awaiting: Option<(Seq<char>, bool)>,
}

impl View for WindowSchedule {
    type V = ScheduleView;

    open spec fn view(&self) -> ScheduleView {
        ScheduleView {
            label: self.label@,
            next_due: self.next_due as int,
            prev: self.prev@,
            agree: self.agree,
            burst_start: self.burst_start,
            priority: opt_view(self.priority),
            awaiting: match self.awaiting {
                Some(a) => Some((a.0@, a.1)),
                None => None,
            },
        }
    }
}

/// The views of a sequence of schedules.
pub open spec fn schedule_views(s: Seq<WindowSchedule>) -> Seq<ScheduleView> {
    s.map_values(|w: WindowSchedule| w@)
}

/// A window that nothing was seen of, due at `due`.
pub open spec fn fresh_schedule(label: Seq<char>, due: int, now: u64) -> ScheduleView {
    ScheduleView {
        label,
        next_due: due,
        prev: Map::empty(),
        agree: 0,
        burst_start: now,
        priority: None,
        awaiting: None,
    }
}

/// The index from `i` on of the window labelled `label`; the number of windows
/// where there is none.
pub open spec fn schedule_from(ws: Seq<ScheduleView>, label: Seq<char>, i: int) -> int
    decreases ws.len() - i,
{
    if i >= ws.len() {
        ws.len() as int
    } else if ws[i].label == label {
        i
    } else {
        schedule_from(ws, label, i + 1)
    }
}

/// The index of the window labelled `label`; the number of windows where there
/// is none.
pub open spec fn schedule_at(ws: Seq<ScheduleView>, label: Seq<char>) -> int {
    schedule_from(ws, label, 0)
}

/// A window after a request: it is due at once, and its burst begins anew. A
/// request that names no tab leaves the tab that an earlier one named.
pub open spec fn heated(s: ScheduleView, b: BumpView, now: u64) -> ScheduleView {
    ScheduleView {
        next_due: now as int,
        agree: 0,
        burst_start: now,
        priority: if b.tab is Some {
            b.tab
        } else {
            s.priority
        },
        awaiting: match (b.tab, b.await_present) {
            (Some(id), Some(want)) => Some((id, want)),
            _ => s.awaiting,
        },
        ..s
    }
}

/// The windows after a request.
pub open spec fn bumped(ws: Seq<ScheduleView>, b: BumpView, now: u64) -> Seq<ScheduleView> {
    let i = schedule_at(ws, b.label);
    if i < ws.len() {
        ws.update(i, heated(ws[i], b, now))
    } else {
        ws.push(heated(fresh_schedule(b.label, now as int, now), b, now))
    }
}

/// The windows after several requests.
pub open spec fn bumped_all(ws: Seq<ScheduleView>, bs: Seq<BumpView>, now: u64) -> Seq<ScheduleView>
    decreases bs.len(),
{
    if bs.len() == 0 {
        ws
    } else {
        bumped(bumped_all(ws, bs.drop_last(), now), bs.last(), now)
    }
}

/// Those of `ws` whose window is live.
pub open spec fn still_live(ws: Seq<ScheduleView>, live: Seq<Seq<char>>) -> Seq<ScheduleView>
    decreases ws.len(),
{
    if ws.len() == 0 {
        Seq::empty()
    } else if live.contains(ws.last().label) {
        still_live(ws.drop_last(), live).push(ws.last())
    } else {
        still_live(ws.drop_last(), live)
    }
}

/// When a window that just opened is due: at the slow poll, or only after a
/// trigger.
pub open spec fn opening_due(now: u64, slow: u64) -> int {
    due_after(
        now,
        if slow > 0 {
            Cadence::Slow(slow)
        } else {
            Cadence::Idle
        },
    )
}

/// `ws` with a schedule for each of `live` that has none.
pub open spec fn with_opened(ws: Seq<ScheduleView>, live: Seq<Seq<char>>, now: u64, slow: u64) -> Seq<
    ScheduleView,
>
    decreases live.len(),
{
    if live.len() == 0 {
        ws
    } else {
        let before = with_opened(ws, live.drop_last(), now, slow);
        let l = live.last();
        if schedule_at(before, l) < before.len() {
            before
        } else {
            before.push(fresh_schedule(l, opening_due(now, slow), now))
        }
    }
}

/// The presence that a look saw of a tab; one it did not see counts as absent.
pub open spec fn seen(new: Map<Seq<char>, Presence>, id: Seq<char>) -> Presence {
    if new.contains_key(id) {
        new[id]
    } else {
        Presence::Absent
    }
}

/// Whether the change that a window's burst awaits has not come yet.
pub open spec fn burst_awaits(s: ScheduleView, new: Map<Seq<char>, Presence>) -> bool {
    match s.awaiting {
        Some(a) => still_awaited(seen(new, a.0), a.1),
        None => false,
    }
}

/// How long a burst has run.
pub open spec fn burst_age(s: ScheduleView, end: u64) -> u64 {
    if end >= s.burst_start {
        (end - s.burst_start) as u64
    } else {
        0
    }
}

/// A window after a look that saw `new` and ended at `end`. The next look is
/// due counted from the end, so that a slow one never follows on its own heels.
pub open spec fn looked_at(
    s: ScheduleView,
    new: Map<Seq<char>, Presence>,
    end: u64,
    slow: u64,
) -> ScheduleView {
    let age = burst_age(s, end);
    let pending = burst_awaits(s, new);
    let (agree, cadence) = advanced(new != s.prev, s.agree, age, slow, pending);
    ScheduleView {
        prev: new,
        agree,
        next_due: due_after(end, cadence),
        awaiting: if pending && age < CAP {
            s.awaiting
        } else {
            None
        },
        ..s
    }
}

/// The schedules once a look at a window has begun: what came first on it does
/// not come first on the next.
pub open spec fn begun(ws: Seq<ScheduleView>, label: Seq<char>) -> Seq<ScheduleView> {
    let i = schedule_at(ws, label);
    if i < ws.len() {
        ws.update(i, ScheduleView { priority: None, ..ws[i] })
    } else {
        ws
    }
}

/// The schedules once a look at a window has ended.
pub open spec fn finished(
    ws: Seq<ScheduleView>,
    label: Seq<char>,
    new: Map<Seq<char>, Presence>,
    end: u64,
    slow: u64,
) -> Seq<ScheduleView> {
    let i = schedule_at(ws, label);
    if i < ws.len() {
        ws.update(i, looked_at(ws[i], new, end, slow))
    } else {
        ws
    }
}

/// The schedules after one turn.
pub open spec fn turned(
    ws: Seq<ScheduleView>,
    bs: Seq<BumpView>,
    live: Seq<Seq<char>>,
    now: u64,
    slow: u64,
) -> Seq<ScheduleView> {
    with_opened(still_live(bumped_all(ws, bs, now), live), live, now, slow)
}

/// What a look at a window begins with: the tab that comes first on it, and
/// what the last look saw.
pub open spec fn pass_of(ws: Seq<ScheduleView>, label: Seq<char>) -> Option<
    (Option<Seq<char>>, Map<Seq<char>, Presence>),
> {
    let i = schedule_at(ws, label);
    if i < ws.len() {
        Some((ws[i].priority, ws[i].prev))
    } else {
        None
    }
}

/// The labels of the windows that are due.
pub open spec fn due_at(ws: Seq<ScheduleView>, now: u64) -> Seq<Seq<char>>
    decreases ws.len(),
{
    if ws.len() == 0 {
        Seq::empty()
    } else if now >= ws.last().next_due {
        due_at(ws.drop_last(), now).push(ws.last().label)
    } else {
        due_at(ws.drop_last(), now)
    }
}

/// The schedules of all windows.
pub struct Scheduler {
    windows: Vec<WindowSchedule>,
}

impl View for Scheduler {
    type V = Seq<ScheduleView>;

    closed spec fn view(&self) -> Seq<ScheduleView> {
        schedule_views(self.windows@)
    }
}

impl Scheduler {
    /// A scheduler without windows.
    pub fn new() -> (r: Scheduler)
        ensures
            r@ == Seq::<ScheduleView>::empty(),
    {
        let r = Scheduler { windows: Vec::new() };
        assert(r@ =~= Seq::empty());
        r
    }

    fn position(&self, label: &str) -> (r: Option<usize>)
        ensures
            match r {
                Some(i) => i == schedule_at(self@, label@) && i < self.windows@.len(),
                None => schedule_at(self@, label@) == self@.len(),
            },
            self@.len() == self.windows@.len(),
    {
        let mut i: usize = 0;
        while i < self.windows.len()
            invariant
                i <= self.windows.len(),
                self@ == schedule_views(self.windows@),
                schedule_at(self@, label@) == schedule_from(self@, label@, i as int),
            decreases self.windows.len() - i,
        {
            assert(self@[i as int] == self.windows@[i as int]@);
            if same(self.windows[i].label.as_str(), label) {
                return Some(i);
            }
            i = i + 1;
        }
        None
    }

    /// A window that nothing was seen of.
    fn open(&mut self, label: &str, due: u128, now: u64)
        ensures
            final(self)@ == old(self)@.push(fresh_schedule(label@, due as int, now)),
    {
        let w = WindowSchedule {
            label: owned(label),
            next_due: due,
            prev: PresenceMap::new(),
            agree: 0,
            burst_start: now,
            priority: None,
            awaiting: None,
        };
        let ghost wv = w@;
        self.windows.push(w);
        assert(self@ =~= old(self)@.push(wv));
    }

    /// Take up one request.
    pub fn apply_bump(&mut self, b: &Bump, now: u64)
        ensures
            final(self)@ == bumped(old(self)@, b@, now),
    {
        let ghost v = self@;
        let i: usize = match self.position(b.label.as_str()) {
            Some(i) => i,
            None => {
                let n: usize = self.windows.len();
                self.open(b.label.as_str(), now as u128, now);
                assert(self@.len() == self.windows@.len());
                n
            },
        };
        let ghost mid = self@;
        assert(mid[i as int] == self.windows@[i as int]@);
        self.windows[i].next_due = now as u128;
        self.windows[i].agree = 0;
        self.windows[i].burst_start = now;
        match &b.tab {
            Some(id) => {
                match b.await_present {
                    Some(want) => {
                        self.windows[i].awaiting = Some((id.clone(), want));
                    },
                    None => {},
                }
                self.windows[i].priority = Some(id.clone());
            },
            None => {},
        }
        assert(self@ =~= mid.update(i as int, heated(mid[i as int], b@, now)));
        assert(self@ =~= bumped(v, b@, now));
    }

    /// Take up the requests that waited.
    pub fn apply_bumps(&mut self, bumps: &Vec<Bump>, now: u64)
        ensures
            final(self)@ == bumped_all(old(self)@, bumps@.map_values(|b: Bump| b@), now),
    {
        let ghost bv = bumps@.map_values(|b: Bump| b@);
        let mut i: usize = 0;
        assert(bv.take(0) =~= Seq::empty());
        while i < bumps.len()
            invariant
                i <= bumps.len(),
                bv == bumps@.map_values(|b: Bump| b@),
                self@ == bumped_all(old(self)@, bv.take(i as int), now),
            decreases bumps.len() - i,
        {
            assert(bv.take(i + 1).drop_last() =~= bv.take(i as int));
            assert(bv.take(i + 1).last() == bumps@[i as int]@);
            self.apply_bump(&bumps[i], now);
            i = i + 1;
        }
        assert(bv.take(i as int) =~= bv);
    }

    /// Forget the windows that are gone, and take up those that opened: their
    /// first burst comes with a request of their own.
    pub fn follow(&mut self, live: &Vec<String>, now: u64, slow: u64)
        ensures
            final(self)@ == with_opened(still_live(old(self)@, views(live@)), views(live@), now, slow),
    {
        let ghost v = self@;
        let ghost lv = views(live@);
        let mut kept: Vec<WindowSchedule> = Vec::new();
        let mut old_windows: Vec<WindowSchedule> = Vec::new();
        core::mem::swap(&mut old_windows, &mut self.windows);
        assert(schedule_views(old_windows@) == v);
        assert(schedule_views(kept@) =~= still_live(v.take(0), lv));
        for w in it: old_windows.into_iter()
            invariant
                it.seq() == old_windows@,
                lv == views(live@),
                v == schedule_views(old_windows@),
                schedule_views(kept@) == still_live(v.take(it.index() as int), lv),
        {
            let ghost before = kept@;
            let ghost i = it.index() as int;
            assert(v.take(i + 1).drop_last() =~= v.take(i));
            assert(v.take(i + 1).last() == old_windows@[i]@);
            if holds(live, w.label.as_str()) {
                kept.push(w);
                assert(schedule_views(kept@) =~= schedule_views(before).push(w@));
            }
        }
        assert(v.take(v.len() as int) =~= v);
        self.windows = kept;
        let ghost mid = self@;
        assert(mid == still_live(v, lv));
        let mut i: usize = 0;
        assert(lv.take(0) =~= Seq::empty());
        while i < live.len()
            invariant
                i <= live.len(),
                lv == views(live@),
                self@ == with_opened(mid, lv.take(i as int), now, slow),
            decreases live.len() - i,
        {
            assert(lv.take(i + 1).drop_last() =~= lv.take(i as int));
            assert(lv.take(i + 1).last() == live@[i as int]@);
            if self.position(live[i].as_str()).is_none() {
                let due: u128 = next_due(
                    now,
                    if slow > 0 {
                        Cadence::Slow(slow)
                    } else {
                        Cadence::Idle
                    },
                );
                self.open(live[i].as_str(), due, now);
            }
            i = i + 1;
        }
        assert(lv.take(i as int) =~= lv);
    }

    /// The windows that are due.
    pub fn due(&self, now: u64) -> (r: Vec<String>)
        ensures
            views(r@) == due_at(self@, now),
    {
        let ghost v = self@;
        let mut out: Vec<String> = Vec::new();
        assert(views(out@) =~= due_at(v.take(0), now));
        let mut i: usize = 0;
        while i < self.windows.len()
            invariant
                i <= self.windows.len(),
                v == schedule_views(self.windows@),
                views(out@) == due_at(v.take(i as int), now),
            decreases self.windows.len() - i,
        {
            let ghost before = out@;
            assert(v.take(i + 1).drop_last() =~= v.take(i as int));
            assert(v.take(i + 1).last() == self.windows@[i as int]@);
            if now as u128 >= self.windows[i].next_due {
                out.push(self.windows[i].label.clone());
                assert(views(out@) =~= views(before).push(self.windows@[i as int].label@));
            }
            i = i + 1;
        }
        assert(v.take(i as int) =~= v);
        out
    }

    /// One turn of the scheduler: take up the requests that waited, follow the
    /// windows that opened and closed, and say which are due.
    pub fn turn(&mut self, bumps: &Vec<Bump>, live: &Vec<String>, now: u64, slow: u64) -> (r: Vec<
        String,
    >)
        ensures
            final(self)@ == with_opened(
                still_live(
                    bumped_all(old(self)@, bumps@.map_values(|b: Bump| b@), now),
                    views(live@),
                ),
                views(live@),
                now,
                slow,
            ),
            final(self)@ == turned(
                old(self)@,
                bumps@.map_values(|b: Bump| b@),
                views(live@),
                now,
                slow,
            ),
            views(r@) == due_at(final(self)@, now),
    {
        self.apply_bumps(bumps, now);
        self.follow(live, now, slow);
        self.due(now)
    }

    /// Begin a look at a window: which tab comes first, and what the last look
    /// saw. The tab comes first on this look only.
    pub fn begin_pass(&mut self, label: &str) -> (r: Option<(Option<String>, PresenceMap)>)
        ensures
            ({
                let i = schedule_at(old(self)@, label@);
                match r {
                    Some(p) => {
                        &&& i < old(self)@.len()
                        &&& opt_view(p.0) == old(self)@[i].priority
                        &&& p.1@ == old(self)@[i].prev
                        &&& final(self)@ == old(self)@.update(
                            i,
                            ScheduleView { priority: None, ..old(self)@[i] },
                        )
                    },
                    None => i == old(self)@.len() && final(self)@ == old(self)@,
                }
            }),
            final(self)@ == begun(old(self)@, label@),
            match r {
                Some(p) => pass_of(old(self)@, label@) == Some((opt_view(p.0), p.1@)),
                None => pass_of(old(self)@, label@) is None,
            },
    {
        match self.position(label) {
            None => None,
            Some(i) => {
                assert(self@[i as int] == self.windows@[i as int]@);
                let priority: Option<String> = copy_opt(&self.windows[i].priority);
                let prev: PresenceMap = self.windows[i].prev.clone();
                self.windows[i].priority = None;
                assert(self@ =~= old(self)@.update(
                    i as int,
                    ScheduleView { priority: None, ..old(self)@[i as int] },
                ));
                Some((priority, prev))
            },
        }
    }

    /// End a look at a window that saw `new`: decide when to look again.
    pub fn finish_pass(&mut self, label: &str, new: PresenceMap, end: u64, slow: u64)
        ensures
            ({
                let i = schedule_at(old(self)@, label@);
                final(self)@ == if i < old(self)@.len() {
                    old(self)@.update(i, looked_at(old(self)@[i], new@, end, slow))
                } else {
                    old(self)@
                }
            }),
            final(self)@ == finished(old(self)@, label@, new@, end, slow),
    {
        let ghost v = self@;
        match self.position(label) {
            None => {},
            Some(i) => {
                let ghost s = v[i as int];
                assert(s == self.windows@[i as int]@);
                let changed: bool = !new.same_as(&self.windows[i].prev);
                let pending: bool = match &self.windows[i].awaiting {
                    Some(a) => {
                        let now: Presence = match new.get(a.0.as_str()) {
                            Some(p) => p,
                            None => Presence::Absent,
                        };
                        await_pending(now, a.1)
                    },
                    None => false,
                };
                let start: u64 = self.windows[i].burst_start;
                let age: u64 = if end >= start {
                    end - start
                } else {
                    0
                };
                let (agree, cadence) = advance(
                    changed,
                    self.windows[i].agree,
                    age,
                    slow,
                    pending,
                );
                if !pending || age >= CAP {
                    self.windows[i].awaiting = None;
                }
                self.windows[i].prev = new;
                self.windows[i].agree = agree;
                self.windows[i].next_due = next_due(end, cadence);
                assert(self@ =~= v.update(i as int, looked_at(s, new@, end, slow)));
            },
        }
    }
}

} // verus!
