//! What a probe found of a tab's session, and what is remembered of it.

use crate::registry::{dto_views, TabDto, TabDtoView};
use crate::text::{owned, same, views};
use vstd::prelude::*;

verus! {

/// What a probe found of a tab's session.
#[derive(Debug, Clone, Copy, PartialEq, Eq, PartialOrd, Ord, Structural)]
pub enum Presence {
    /// It is alive.
    Present,
    /// There is none, but it can be restored.
    Recoverable,
    /// There is none.
    Absent,
}

impl Presence {
    /// The word by which the chrome knows the state.
    pub open spec fn word(self) -> Seq<char> {
        match self {
            Presence::Present => "on"@,
            Presence::Recoverable => "ghost"@,
            Presence::Absent => "off"@,
        }
    }

    /// The word by which the chrome knows the state.
    pub fn as_str(self) -> (r: &'static str)
        ensures
            r@ == self.word(),
    {
        match self {
            Presence::Present => "on",
            Presence::Recoverable => "ghost",
            Presence::Absent => "off",
        }
    }
}

/// The views of a sequence of entries.
pub open spec fn entry_views(s: Seq<(String, Presence)>) -> Seq<(Seq<char>, Presence)> {
    s.map_values(|e: (String, Presence)| (e.0@, e.1))
}

/// The identities of a sequence of entries.
pub open spec fn entry_ids(entries: Seq<(Seq<char>, Presence)>) -> Seq<Seq<char>> {
    entries.map_values(|e: (Seq<char>, Presence)| e.0)
}

/// The map that a sequence of entries stands for: a later entry wins.
pub open spec fn map_of(entries: Seq<(Seq<char>, Presence)>) -> Map<Seq<char>, Presence>
    decreases entries.len(),
{
    if entries.len() == 0 {
        Map::empty()
    } else {
        map_of(entries.drop_last()).insert(entries.last().0, entries.last().1)
    }
}

/// The entries whose identity is not `id`.
pub open spec fn others(entries: Seq<(Seq<char>, Presence)>, id: Seq<char>) -> Seq<
    (Seq<char>, Presence),
>
    decreases entries.len(),
{
    if entries.len() == 0 {
        Seq::empty()
    } else if entries.last().0 == id {
        others(entries.drop_last(), id)
    } else {
        others(entries.drop_last(), id).push(entries.last())
    }
}

/// Leaving out the entries of one identity removes it from the map.
proof fn lemma_others(entries: Seq<(Seq<char>, Presence)>, id: Seq<char>)
    ensures
        map_of(others(entries, id)) == map_of(entries).remove(id),
    decreases entries.len(),
{
    if entries.len() > 0 {
        lemma_others(entries.drop_last(), id);
        let last = entries.last();
        if last.0 != id {
            let o = others(entries.drop_last(), id);
            assert(o.push(last).drop_last() =~= o);
        }
    }
    assert(map_of(others(entries, id)) =~= map_of(entries).remove(id));
}

/// What is known of the sessions of a window's tabs, by tab identity.
#[derive(Debug)]
pub struct PresenceMap {
    entries: Vec<(String, Presence)>,
}

impl View for PresenceMap {
    type V = Map<Seq<char>, Presence>;

    closed spec fn view(&self) -> Map<Seq<char>, Presence> {
        map_of(entry_views(self.entries@))
    }
}

impl PresenceMap {
    /// The map without entries.
    pub fn new() -> (r: PresenceMap)
        ensures
            r@ == Map::<Seq<char>, Presence>::empty(),
    {
        let r = PresenceMap { entries: Vec::new() };
        assert(entry_views(r.entries@) =~= Seq::empty());
        r
    }

    /// What is known of tab `id`.
    pub fn get(&self, id: &str) -> (r: Option<Presence>)
        ensures
            r == (if self@.contains_key(id@) {
                Some(self@[id@])
            } else {
                None
            }),
    {
        let ghost ev = entry_views(self.entries@);
        let mut i: usize = self.entries.len();
        assert(ev.take(i as int) =~= ev);
        while i > 0
            invariant
                i <= self.entries.len(),
                ev == entry_views(self.entries@),
                self@ == map_of(ev),
                map_of(ev).contains_key(id@) == map_of(ev.take(i as int)).contains_key(id@),
                map_of(ev).contains_key(id@) ==> map_of(ev)[id@] == map_of(ev.take(i as int))[id@],
            decreases i,
        {
            assert(ev.take(i as int).drop_last() =~= ev.take(i - 1));
            assert(ev.take(i as int).last() == (self.entries@[i - 1].0@, self.entries@[i - 1].1));
            if same(self.entries[i - 1].0.as_str(), id) {
                return Some(self.entries[i - 1].1);
            }
            i = i - 1;
        }
        assert(ev.take(0) =~= Seq::empty());
        None
    }

    /// Remember what was found of tab `id`.
    pub fn insert(&mut self, id: &str, on: Presence)
        ensures
            final(self)@ == old(self)@.insert(id@, on),
    {
        let ghost ev = entry_views(self.entries@);
        let mut kept: Vec<(String, Presence)> = Vec::new();
        let mut i: usize = 0;
        assert(entry_views(kept@) =~= others(ev.take(0), id@));
        while i < self.entries.len()
            invariant
                i <= self.entries.len(),
                ev == entry_views(self.entries@),
                entry_views(kept@) == others(ev.take(i as int), id@),
            decreases self.entries.len() - i,
        {
            let ghost before = kept@;
            assert(ev.take(i + 1).drop_last() =~= ev.take(i as int));
            assert(ev.take(i + 1).last() == (self.entries@[i as int].0@, self.entries@[i as int].1));
            if !same(self.entries[i].0.as_str(), id) {
                kept.push((self.entries[i].0.clone(), self.entries[i].1));
                assert(entry_views(kept@) =~= entry_views(before).push(
                    (self.entries@[i as int].0@, self.entries@[i as int].1),
                ));
            }
            i = i + 1;
        }
        assert(ev.take(i as int) =~= ev);
        let ghost before = kept@;
        kept.push((owned(id), on));
        proof {
            lemma_others(ev, id@);
            assert(entry_views(kept@) =~= entry_views(before).push((id@, on)));
            assert(entry_views(kept@).drop_last() =~= entry_views(before));
        }
        self.entries = kept;
        assert(self@ =~= old(self)@.insert(id@, on));
    }

    /// The tabs of which something is known.
    pub fn ids(&self) -> (r: Vec<String>)
        ensures
            forall|id: Seq<char>| #[trigger] views(r@).contains(id) <==> self@.contains_key(id),
    {
        let ghost ev = entry_views(self.entries@);
        let mut out: Vec<String> = Vec::new();
        let mut i: usize = 0;
        while i < self.entries.len()
            invariant
                i <= self.entries.len(),
                out.len() == i,
                forall|k: int| 0 <= k < i ==> #[trigger] out@[k]@ == self.entries@[k].0@,
            decreases self.entries.len() - i,
        {
            out.push(self.entries[i].0.clone());
            i = i + 1;
        }
        proof {
            lemma_map_keys(ev);
            assert(views(out@) =~= entry_ids(ev));
        }
        out
    }

    /// Whether the other map knows of every tab what this one does.
    fn within(&self, other: &PresenceMap) -> (r: bool)
        ensures
            r == (forall|id: Seq<char>| #[trigger]
                self@.contains_key(id) ==> other@.contains_key(id) && other@[id] == self@[id]),
    {
        let ids: Vec<String> = self.ids();
        let mut i: usize = 0;
        while i < ids.len()
            invariant
                i <= ids.len(),
                forall|id: Seq<char>| #[trigger]
                    views(ids@).contains(id) <==> self@.contains_key(id),
                forall|k: int|
                    0 <= k < i ==> other@.contains_key(#[trigger] views(ids@)[k])
                        && other@[views(ids@)[k]] == self@[views(ids@)[k]],
            decreases ids.len() - i,
        {
            assert(views(ids@)[i as int] == ids@[i as int]@);
            assert(views(ids@).contains(ids@[i as int]@));
            let a: Option<Presence> = self.get(ids[i].as_str());
            let b: Option<Presence> = other.get(ids[i].as_str());
            let equal: bool = match (a, b) {
                (Some(x), Some(y)) => x == y,
                _ => false,
            };
            if !equal {
                assert(self@.contains_key(ids@[i as int]@));
                return false;
            }
            i = i + 1;
        }
        assert forall|id: Seq<char>| #[trigger] self@.contains_key(id) implies other@.contains_key(
            id,
        ) && other@[id] == self@[id] by {
            assert(views(ids@).contains(id));
            let k = choose|k: int| 0 <= k < views(ids@).len() && views(ids@)[k] == id;
            assert(other@.contains_key(views(ids@)[k]));
        }
        true
    }

    /// Whether two maps know the same.
    pub fn same_as(&self, other: &PresenceMap) -> (r: bool)
        ensures
            r == (self@ == other@),
    {
        let r: bool = self.within(other) && other.within(self);
        if r {
            assert(self@ =~= other@);
        }
        r
    }
}

/// The identities of a map are those of its entries.
proof fn lemma_map_keys(entries: Seq<(Seq<char>, Presence)>)
    ensures
        forall|id: Seq<char>|
            map_of(entries).contains_key(id) <==> #[trigger] entry_ids(entries).contains(id),
    decreases entries.len(),
{
    let ids = entry_ids(entries);
    if entries.len() > 0 {
        let rest = entries.drop_last();
        let before = entry_ids(rest);
        lemma_map_keys(rest);
        assert(ids =~= before.push(entries.last().0));
        assert forall|id: Seq<char>|
            map_of(entries).contains_key(id) <==> #[trigger] ids.contains(id) by {
            assert(before.contains(id) == map_of(rest).contains_key(id));
            if before.contains(id) {
                let k = choose|k: int| 0 <= k < before.len() && before[k] == id;
                assert(ids[k] == id);
            }
            if id == entries.last().0 {
                assert(ids[entries.len() - 1] == id);
            }
        }
    }
}

/// The map as a value that stays known when it is copied.
impl Clone for PresenceMap {
    fn clone(&self) -> (r: Self)
        ensures
            r@ == self@,
    {
        let mut entries: Vec<(String, Presence)> = Vec::new();
        let mut i: usize = 0;
        while i < self.entries.len()
            invariant
                i <= self.entries.len(),
                entries.len() == i,
                forall|k: int|
                    0 <= k < i ==> (#[trigger] entries@[k]).0@ == self.entries@[k].0@
                        && entries@[k].1 == self.entries@[k].1,
            decreases self.entries.len() - i,
        {
            entries.push((self.entries[i].0.clone(), self.entries[i].1));
            i = i + 1;
        }
        assert(entry_views(entries@) =~= entry_views(self.entries@));
        PresenceMap { entries }
    }
}

/// The last known presence of every tab of every window, by window label.
pub struct PresenceCache {
    windows: Vec<(String, PresenceMap)>,
}

/// The map that a sequence of windows stands for: a later window wins.
pub open spec fn cache_of(windows: Seq<(Seq<char>, Map<Seq<char>, Presence>)>) -> Map<
    Seq<char>,
    Map<Seq<char>, Presence>,
>
    decreases windows.len(),
{
    if windows.len() == 0 {
        Map::empty()
    } else {
        cache_of(windows.drop_last()).insert(windows.last().0, windows.last().1)
    }
}

/// The views of a sequence of windows.
pub open spec fn window_maps(s: Seq<(String, PresenceMap)>) -> Seq<
    (Seq<char>, Map<Seq<char>, Presence>),
> {
    s.map_values(|w: (String, PresenceMap)| (w.0@, w.1@))
}

impl View for PresenceCache {
    type V = Map<Seq<char>, Map<Seq<char>, Presence>>;

    closed spec fn view(&self) -> Map<Seq<char>, Map<Seq<char>, Presence>> {
        cache_of(window_maps(self.windows@))
    }
}

/// What a cache knows of the window labelled `label`.
pub open spec fn known_of(
    cache: Map<Seq<char>, Map<Seq<char>, Presence>>,
    label: Seq<char>,
) -> Map<Seq<char>, Presence> {
    if cache.contains_key(label) {
        cache[label]
    } else {
        Map::empty()
    }
}

/// Rows with what is known of their sessions filled in.
pub open spec fn patched(tabs: Seq<TabDtoView>, known: Map<Seq<char>, Presence>) -> Seq<TabDtoView> {
    tabs.map_values(
        |t: TabDtoView|
            if known.contains_key(t.id) {
                TabDtoView { presence: Some(known[t.id]), ..t }
            } else {
                t
            },
    )
}

/// The windows whose label is not `label`.
pub open spec fn other_windows(
    windows: Seq<(Seq<char>, Map<Seq<char>, Presence>)>,
    label: Seq<char>,
) -> Seq<(Seq<char>, Map<Seq<char>, Presence>)>
    decreases windows.len(),
{
    if windows.len() == 0 {
        Seq::empty()
    } else if windows.last().0 == label {
        other_windows(windows.drop_last(), label)
    } else {
        other_windows(windows.drop_last(), label).push(windows.last())
    }
}

proof fn lemma_other_windows(
    windows: Seq<(Seq<char>, Map<Seq<char>, Presence>)>,
    label: Seq<char>,
)
    ensures
        cache_of(other_windows(windows, label)) == cache_of(windows).remove(label),
    decreases windows.len(),
{
    if windows.len() > 0 {
        lemma_other_windows(windows.drop_last(), label);
        let last = windows.last();
        if last.0 != label {
            let o = other_windows(windows.drop_last(), label);
            assert(o.push(last).drop_last() =~= o);
        }
    }
    assert(cache_of(other_windows(windows, label)) =~= cache_of(windows).remove(label));
}

impl PresenceCache {
    /// A cache that knows nothing.
    pub fn new() -> (r: PresenceCache)
        ensures
            r@ == Map::<Seq<char>, Map<Seq<char>, Presence>>::empty(),
    {
        let r = PresenceCache { windows: Vec::new() };
        assert(window_maps(r.windows@) =~= Seq::empty());
        r
    }

    /// What is known of a window's tabs.
    pub fn snapshot(&self, label: &str) -> (r: PresenceMap)
        ensures
            r@ == known_of(self@, label@),
    {
        let ghost wv = window_maps(self.windows@);
        let mut i: usize = self.windows.len();
        assert(wv.take(i as int) =~= wv);
        while i > 0
            invariant
                i <= self.windows.len(),
                wv == window_maps(self.windows@),
                self@ == cache_of(wv),
                cache_of(wv).contains_key(label@) == cache_of(wv.take(i as int)).contains_key(
                    label@,
                ),
                cache_of(wv).contains_key(label@) ==> cache_of(wv)[label@] == cache_of(
                    wv.take(i as int),
                )[label@],
            decreases i,
        {
            assert(wv.take(i as int).drop_last() =~= wv.take(i - 1));
            assert(wv.take(i as int).last() == (self.windows@[i - 1].0@, self.windows@[i - 1].1@));
            if same(self.windows[i - 1].0.as_str(), label) {
                return self.windows[i - 1].1.clone();
            }
            i = i - 1;
        }
        assert(wv.take(0) =~= Seq::empty());
        PresenceMap::new()
    }

    /// Put what is known of a window.
    fn put(&mut self, label: &str, map: PresenceMap)
        ensures
            final(self)@ == old(self)@.insert(label@, map@),
    {
        let ghost wv = window_maps(self.windows@);
        self.forget_window(label);
        let ghost before = self.windows@;
        self.windows.push((owned(label), map));
        proof {
            assert(window_maps(self.windows@) =~= window_maps(before).push((label@, map@)));
            assert(window_maps(self.windows@).drop_last() =~= window_maps(before));
        }
        assert(self@ =~= old(self)@.insert(label@, map@));
    }

    /// Remember what was found of one tab.
    pub fn record_one(&mut self, label: &str, id: &str, on: Presence)
        ensures
            final(self)@ == old(self)@.insert(
                label@,
                known_of(old(self)@, label@).insert(id@, on),
            ),
    {
        let mut map: PresenceMap = self.snapshot(label);
        map.insert(id, on);
        self.put(label, map);
    }

    /// Fill in what is known of each row's session. A row that was never
    /// looked at is left as it is.
    pub fn patch(&self, label: &str, tabs: &mut Vec<TabDto>)
        ensures
            dto_views(final(tabs)@) == patched(dto_views(old(tabs)@), known_of(self@, label@)),
    {
        let map: PresenceMap = self.snapshot(label);
        let ghost start = dto_views(tabs@);
        let ghost want = patched(start, map@);
        let mut i: usize = 0;
        while i < tabs.len()
            invariant
                i <= tabs.len(),
                tabs.len() == start.len(),
                want == patched(start, map@),
                forall|k: int| 0 <= k < i ==> (#[trigger] tabs@[k])@ == want[k],
                forall|k: int| i <= k < tabs.len() ==> (#[trigger] tabs@[k])@ == start[k],
            decreases tabs.len() - i,
        {
            assert(tabs@[i as int]@ == start[i as int]);
            match map.get(tabs[i].id.as_str()) {
                Some(on) => {
                    tabs[i].presence = Some(on);
                },
                None => {},
            }
            i = i + 1;
        }
        assert(dto_views(tabs@) =~= want);
    }

    /// Forget everything of a window.
    fn forget_window(&mut self, label: &str)
        ensures
            final(self)@ == old(self)@.remove(label@),
    {
        let ghost wv = window_maps(self.windows@);
        let mut kept: Vec<(String, PresenceMap)> = Vec::new();
        let mut i: usize = 0;
        assert(window_maps(kept@) =~= other_windows(wv.take(0), label@));
        while i < self.windows.len()
            invariant
                i <= self.windows.len(),
                wv == window_maps(self.windows@),
                window_maps(kept@) == other_windows(wv.take(i as int), label@),
            decreases self.windows.len() - i,
        {
            let ghost before = kept@;
            assert(wv.take(i + 1).drop_last() =~= wv.take(i as int));
            assert(wv.take(i + 1).last() == (self.windows@[i as int].0@, self.windows@[i as int].1@));
            if !same(self.windows[i].0.as_str(), label) {
                kept.push((self.windows[i].0.clone(), self.windows[i].1.clone()));
                assert(window_maps(kept@) =~= window_maps(before).push(
                    (self.windows@[i as int].0@, self.windows@[i as int].1@),
                ));
            }
            i = i + 1;
        }
        assert(wv.take(i as int) =~= wv);
        proof {
            lemma_other_windows(wv, label@);
        }
        self.windows = kept;
    }
}

/// What was just remembered of a tab is what the cache knows of it, and what
/// it knew of every other tab and window stays.
pub proof fn law_record_is_remembered(
    cache: Map<Seq<char>, Map<Seq<char>, Presence>>,
    label: Seq<char>,
    id: Seq<char>,
    on: Presence,
)
    ensures
        ({
            let after = cache.insert(label, known_of(cache, label).insert(id, on));
            &&& known_of(after, label).contains_key(id)
            &&& known_of(after, label)[id] == on
            &&& forall|other: Seq<char>|
                other != id ==> {
                    &&& #[trigger] known_of(after, label).contains_key(other) == known_of(
                        cache,
                        label,
                    ).contains_key(other)
                    &&& known_of(cache, label).contains_key(other) ==> known_of(after, label)[other]
                        == known_of(cache, label)[other]
                }
            &&& forall|other: Seq<char>|
                other != label ==> #[trigger] known_of(after, other) == known_of(cache, other)
        }),
{
}

} // verus!
