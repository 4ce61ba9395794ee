//! Remembered tabs: which tabs of a window had a terminal standing, and which
//! was shown, so that the window comes back the way it was left.

use crate::reconcile::same_list;
use crate::text::{copy_list, copy_opt, holds, opt_view, owned, same, same_opt, views};
use vstd::prelude::*;

verus! {

/// What is remembered of one window.
#[derive(Debug, PartialEq, Eq)]
pub struct WindowRecord {
    /// The tabs with a terminal standing.
    pub loaded: Vec<String>,
    /// The tab that was shown.
    pub active: Option<String>,
}

#[verifier::ext_equal]
pub ghost struct WindowRecordView {
    pub loaded: Seq<Seq<char>>,
    pub active: Option<Seq<char>>,
}

impl View for WindowRecord {
    type V = WindowRecordView;

    open spec fn view(&self) -> WindowRecordView {
        WindowRecordView { loaded: views(self.loaded@), active: opt_view(self.active) }
    }
}

impl Clone for WindowRecord {
    fn clone(&self) -> (r: Self)
        ensures
            r@ == self@,
    {
        WindowRecord { loaded: copy_list(&self.loaded), active: copy_opt(&self.active) }
    }
}

/// What a window restores, of the tabs that it still has.
#[derive(Debug, PartialEq, Eq)]
pub struct Restore {
    pub loaded: Vec<String>,
    pub active: Option<String>,
}

/// The tab that was shown, where it is still there.
pub open spec fn still_shown(active: Option<Seq<char>>, present: Seq<Seq<char>>) -> Option<
    Seq<char>,
> {
    match active {
        Some(a) => if present.contains(a) {
            Some(a)
        } else {
            None
        },
        None => None,
    }
}

/// Those of `ids` that are in `present`, in order.
pub open spec fn still_there(ids: Seq<Seq<char>>, present: Seq<Seq<char>>) -> Seq<Seq<char>>
    decreases ids.len(),
{
    if ids.len() == 0 {
        Seq::empty()
    } else if present.contains(ids.last()) {
        still_there(ids.drop_last(), present).push(ids.last())
    } else {
        still_there(ids.drop_last(), present)
    }
}

impl WindowRecord {
    /// Restrict the record to the tabs the window has now: one that is gone is
    /// skipped.
    pub fn restore(&self, tab_ids: &Vec<String>) -> (r: Restore)
        ensures
            views(r.loaded@) == still_there(self@.loaded, views(tab_ids@)),
            opt_view(r.active) == (match self@.active {
                Some(a) => if views(tab_ids@).contains(a) {
                    Some(a)
                } else {
                    None
                },
                None => None,
            }),
            opt_view(r.active) == still_shown(self@.active, views(tab_ids@)),
    {
        let ghost lv = views(self.loaded@);
        let ghost pv = views(tab_ids@);
        let mut loaded: Vec<String> = Vec::new();
        assert(views(loaded@) =~= still_there(lv.take(0), pv));
        let mut i: usize = 0;
        while i < self.loaded.len()
            invariant
                i <= self.loaded.len(),
                lv == views(self.loaded@),
                pv == views(tab_ids@),
                views(loaded@) == still_there(lv.take(i as int), pv),
            decreases self.loaded.len() - i,
        {
            let ghost before = loaded@;
            assert(lv.take(i + 1).drop_last() =~= lv.take(i as int));
            assert(lv.take(i + 1).last() == self.loaded@[i as int]@);
            if holds(tab_ids, self.loaded[i].as_str()) {
                loaded.push(self.loaded[i].clone());
                assert(views(loaded@) =~= views(before).push(self.loaded@[i as int]@));
            }
            i = i + 1;
        }
        assert(lv.take(i as int) =~= lv);
        let active: Option<String> = match &self.active {
            Some(a) => {
                if holds(tab_ids, a.as_str()) {
                    Some(a.clone())
                } else {
                    None
                }
            },
            None => None,
        };
        Restore { loaded, active }
    }

    /// Whether two records are equal.
    pub fn same_as(&self, other: &WindowRecord) -> (r: bool)
        ensures
            r == (self@ == other@),
    {
        same_list(&self.loaded, &other.loaded) && same_opt(&self.active, &other.active)
    }
}

/// Nothing is restored that was not remembered or is not there.
pub proof fn law_restores_only_what_is_there(
    ids: Seq<Seq<char>>,
    present: Seq<Seq<char>>,
    id: Seq<char>,
)
    ensures
        still_there(ids, present).contains(id) <==> ids.contains(id) && present.contains(id),
    decreases ids.len(),
{
    if ids.len() > 0 {
        let rest = ids.drop_last();
        let t = ids.last();
        law_restores_only_what_is_there(rest, present, id);
        let before = still_there(rest, present);
        let after = still_there(ids, present);
        if ids.contains(id) {
            let k = choose|k: int| 0 <= k < ids.len() && ids[k] == id;
            if k < rest.len() {
                assert(rest[k] == id);
            }
        }
        if rest.contains(id) {
            let k = choose|k: int| 0 <= k < rest.len() && rest[k] == id;
            assert(ids[k] == id);
        }
        if t == id {
            assert(ids[ids.len() - 1] == id);
        }
        if present.contains(t) {
            assert(after[before.len() as int] == t);
            if before.contains(id) {
                let k = choose|k: int| 0 <= k < before.len() && before[k] == id;
                assert(after[k] == id);
            }
        }
    }
}

/// The records of all windows, by window label.
pub struct SessionStore {
    records: Vec<(String, WindowRecord)>,
}

/// The views of a sequence of records.
pub open spec fn record_views(s: Seq<(String, WindowRecord)>) -> Seq<(Seq<char>, WindowRecordView)> {
    s.map_values(|e: (String, WindowRecord)| (e.0@, e.1@))
}

/// The map that a sequence of records stands for: a later record wins.
pub open spec fn store_of(records: Seq<(Seq<char>, WindowRecordView)>) -> Map<
    Seq<char>,
    WindowRecordView,
>
    decreases records.len(),
{
    if records.len() == 0 {
        Map::empty()
    } else {
        store_of(records.drop_last()).insert(records.last().0, records.last().1)
    }
}

/// The records whose label is not `label`.
pub open spec fn other_records(
    records: Seq<(Seq<char>, WindowRecordView)>,
    label: Seq<char>,
) -> Seq<(Seq<char>, WindowRecordView)>
    decreases records.len(),
{
    if records.len() == 0 {
        Seq::empty()
    } else if records.last().0 == label {
        other_records(records.drop_last(), label)
    } else {
        other_records(records.drop_last(), label).push(records.last())
    }
}

proof fn lemma_other_records(records: Seq<(Seq<char>, WindowRecordView)>, label: Seq<char>)
    ensures
        store_of(other_records(records, label)) == store_of(records).remove(label),
    decreases records.len(),
{
    if records.len() > 0 {
        lemma_other_records(records.drop_last(), label);
        let last = records.last();
        if last.0 != label {
            let o = other_records(records.drop_last(), label);
            assert(o.push(last).drop_last() =~= o);
        }
    }
    assert(store_of(other_records(records, label)) =~= store_of(records).remove(label));
}

impl View for SessionStore {
    type V = Map<Seq<char>, WindowRecordView>;

    closed spec fn view(&self) -> Map<Seq<char>, WindowRecordView> {
        store_of(record_views(self.records@))
    }
}

impl SessionStore {
    /// A store of the given records.
    pub fn from_records(records: Vec<(String, WindowRecord)>) -> (r: SessionStore)
        ensures
            r@ == store_of(record_views(records@)),
    {
        SessionStore { records }
    }

    /// The record of a window.
    pub fn get(&self, label: &str) -> (r: Option<&WindowRecord>)
        ensures
            match r {
                Some(w) => self@.contains_key(label@) && self@[label@] == w@,
                None => !self@.contains_key(label@),
            },
    {
        let ghost rv = record_views(self.records@);
        let mut i: usize = self.records.len();
        assert(rv.take(i as int) =~= rv);
        while i > 0
            invariant
                i <= self.records.len(),
                rv == record_views(self.records@),
                self@ == store_of(rv),
                store_of(rv).contains_key(label@) == store_of(rv.take(i as int)).contains_key(
                    label@,
                ),
                store_of(rv).contains_key(label@) ==> store_of(rv)[label@] == store_of(
                    rv.take(i as int),
                )[label@],
            decreases i,
        {
            assert(rv.take(i as int).drop_last() =~= rv.take(i - 1));
            assert(rv.take(i as int).last() == (self.records@[i - 1].0@, self.records@[i - 1].1@));
            if same(self.records[i - 1].0.as_str(), label) {
                return Some(&self.records[i - 1].1);
            }
            i = i - 1;
        }
        assert(rv.take(0) =~= Seq::empty());
        None
    }

    /// Forget the record of a window.
    fn forget(&mut self, label: &str)
        ensures
            final(self)@ == old(self)@.remove(label@),
    {
        let ghost rv = record_views(self.records@);
        let mut kept: Vec<(String, WindowRecord)> = Vec::new();
        assert(record_views(kept@) =~= other_records(rv.take(0), label@));
        let mut i: usize = 0;
        while i < self.records.len()
            invariant
                i <= self.records.len(),
                rv == record_views(self.records@),
                record_views(kept@) == other_records(rv.take(i as int), label@),
            decreases self.records.len() - i,
        {
            let ghost before = kept@;
            assert(rv.take(i + 1).drop_last() =~= rv.take(i as int));
            assert(rv.take(i + 1).last() == (self.records@[i as int].0@, self.records@[i as int].1@));
            if !same(self.records[i].0.as_str(), label) {
                kept.push((self.records[i].0.clone(), self.records[i].1.clone()));
                assert(record_views(kept@) =~= record_views(before).push(
                    (self.records@[i as int].0@, self.records@[i as int].1@),
                ));
            }
            i = i + 1;
        }
        assert(rv.take(i as int) =~= rv);
        proof {
            lemma_other_records(rv, label@);
        }
        self.records = kept;
    }

    /// Set the record of a window, or forget it. Returns whether anything
    /// changed: only then is the store written.
    pub fn set(&mut self, label: &str, record: Option<WindowRecord>) -> (r: bool)
        ensures
            match record {
                Some(w) => {
                    &&& final(self)@ == old(self)@.insert(label@, w@)
                    &&& r == !(old(self)@.contains_key(label@) && old(self)@[label@] == w@)
                },
                None => {
                    &&& final(self)@ == old(self)@.remove(label@)
                    &&& r == old(self)@.contains_key(label@)
                },
            },
    {
        match record {
            Some(w) => {
                let changed: bool = match self.get(label) {
                    Some(o) => !o.same_as(&w),
                    None => true,
                };
                let ghost wv = w@;
                self.forget(label);
                let ghost before = self.records@;
                self.records.push((owned(label), w));
                proof {
                    assert(record_views(self.records@) =~= record_views(before).push((label@, wv)));
                    assert(record_views(self.records@).drop_last() =~= record_views(before));
                }
                assert(self@ =~= old(self)@.insert(label@, wv));
                changed
            },
            None => {
                let changed: bool = self.get(label).is_some();
                self.forget(label);
                changed
            },
        }
    }

    /// The records, to be written.
    pub fn records(&self) -> (r: Vec<(String, WindowRecord)>)
        ensures
            store_of(record_views(r@)) == self@,
    {
        let mut out: Vec<(String, WindowRecord)> = Vec::new();
        let mut i: usize = 0;
        while i < self.records.len()
            invariant
                i <= self.records.len(),
                out.len() == i,
                forall|k: int|
                    0 <= k < i ==> (#[trigger] out@[k]).0@ == self.records@[k].0@ && out@[k].1@
                        == self.records@[k].1@,
            decreases self.records.len() - i,
        {
            out.push((self.records[i].0.clone(), self.records[i].1.clone()));
            i = i + 1;
        }
        assert(record_views(out@) =~= record_views(self.records@));
        out
    }
}

/// What is restored comes in the order in which it was remembered.
pub proof fn law_restoring_keeps_the_order(
    ids: Seq<Seq<char>>,
    present: Seq<Seq<char>>,
    a: int,
    b: int,
)
    requires
        0 <= a < b < ids.len(),
        present.contains(ids[a]),
        present.contains(ids[b]),
    ensures
        exists|i: int, j: int|
            0 <= i < j < still_there(ids, present).len() && #[trigger] still_there(ids, present)[i]
                == ids[a] && #[trigger] still_there(ids, present)[j] == ids[b],
    decreases ids.len(),
{
    let rest = ids.drop_last();
    let q = still_there(rest, present);
    let r = still_there(ids, present);
    if b < rest.len() {
        law_restoring_keeps_the_order(rest, present, a, b);
        let (i, j) = choose|i: int, j: int|
            0 <= i < j < q.len() && #[trigger] q[i] == rest[a] && #[trigger] q[j] == rest[b];
        assert(r[i] == ids[a] && r[j] == ids[b]);
    } else {
        law_restores_only_what_is_there(rest, present, ids[a]);
        assert(rest[a] == ids[a]);
        assert(q.contains(ids[a]));
        let i = choose|i: int| 0 <= i < q.len() && q[i] == ids[a];
        assert(r[i] == ids[a] && r[q.len() as int] == ids[b]);
    }
}

/// The records of a window are what was written of it last.
pub proof fn law_the_last_record_counts(
    records: Seq<(Seq<char>, WindowRecordView)>,
    i: int,
)
    requires
        0 <= i < records.len(),
        forall|k: int| i < k < records.len() ==> (#[trigger] records[k]).0 != records[i].0,
    ensures
        store_of(records).contains_key(records[i].0),
        store_of(records)[records[i].0] == records[i].1,
    decreases records.len(),
{
    if i < records.len() - 1 {
        let rest = records.drop_last();
        assert forall|k: int| i < k < rest.len() implies (#[trigger] rest[k]).0 != rest[i].0 by {
            assert(rest[k] == records[k]);
        }
        law_the_last_record_counts(rest, i);
        assert(records[records.len() - 1].0 != records[i].0);
    }
}

/// What was shown is shown again exactly where it is still there.
pub proof fn law_what_was_shown_is_shown_again(
    active: Option<Seq<char>>,
    present: Seq<Seq<char>>,
    id: Seq<char>,
)
    ensures
        still_shown(active, present) == Some(id) <==> active == Some(id) && present.contains(id),
{
}

} // verus!
