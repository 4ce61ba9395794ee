//! The difference between two configurations, as the operations that bring a
//! running session from one to the other.

use crate::colour::Colour;
use crate::model::{
    copy_split, same_split, split_view, tab_views, window_views, Config, ConfigView, Split,
    SplitView, Tab, TabView, Window, WindowView,
};
use crate::resolve::{has_key, has_title};
use crate::text::{copy_opt, opt_view, same, same_opt, views};
use vstd::prelude::*;

verus! {

/// What can change of a kept tab without touching its terminal: its label,
/// its section, the commands run outside it and the layout of its split.
#[derive(Debug, PartialEq)]
pub struct TabMeta {
    pub title: String,
    pub group: Option<String>,
    pub probe: Option<String>,
    pub kill: Option<String>,
    pub split: Option<Split>,
}

pub ghost struct TabMetaView {
    pub title: Seq<char>,
    pub group: Option<Seq<char>>,
    pub probe: Option<Seq<char>>,
    pub kill: Option<Seq<char>>,
    pub split: Option<SplitView>,
}

impl View for TabMeta {
    type V = TabMetaView;

    open spec fn view(&self) -> TabMetaView {
        TabMetaView {
            title: self.title@,
            group: opt_view(self.group),
            probe: opt_view(self.probe),
            kill: opt_view(self.kill),
            split: split_view(self.split),
        }
    }
}

impl Clone for TabMeta {
    fn clone(&self) -> (r: Self)
        ensures
            r@ == self@,
    {
        TabMeta {
            title: self.title.clone(),
            group: copy_opt(&self.group),
            probe: copy_opt(&self.probe),
            kill: copy_opt(&self.kill),
            split: copy_split(&self.split),
        }
    }
}

/// A kept tab's identity and its new metadata.
pub open spec fn meta_views(s: Seq<(String, TabMeta)>) -> Seq<(Seq<char>, TabMetaView)> {
    s.map_values(|p: (String, TabMeta)| (p.0@, p.1@))
}

/// The changes to a window that stays open.
///
/// A kept tab is one whose identity is in both configurations. The size of a
/// kept window is never part of its changes: a window keeps the size it was
/// left at. Nor is what the terminal of a kept tab runs, unless the tab's
/// identity is explicit: only then can its directory change under it.
#[derive(Debug, PartialEq)]
pub struct WindowUpdate {
    pub title: String,
    /// The new colour, where it changed.
    pub colour: Option<Colour>,
    pub add_tabs: Vec<Tab>,
    /// The identities of the tabs that are gone.
    pub remove_tabs: Vec<String>,
    /// The identities of all tabs, in their new order.
    pub tab_order: Vec<String>,
    /// The new metadata of the kept tabs whose metadata changed.
    pub set_meta: Vec<(String, TabMeta)>,
    /// The kept tabs whose terminal has to be spawned anew.
    pub respawn_tabs: Vec<Tab>,
}

#[verifier::ext_equal]
pub ghost struct WindowUpdateView {
    pub title: Seq<char>,
    pub colour: Option<Colour>,
    pub add_tabs: Seq<TabView>,
    pub remove_tabs: Seq<Seq<char>>,
    pub tab_order: Seq<Seq<char>>,
    pub set_meta: Seq<(Seq<char>, TabMetaView)>,
    pub respawn_tabs: Seq<TabView>,
}

impl View for WindowUpdate {
    type V = WindowUpdateView;

    open spec fn view(&self) -> WindowUpdateView {
        WindowUpdateView {
            title: self.title@,
            colour: self.colour,
            add_tabs: tab_views(self.add_tabs@),
            remove_tabs: views(self.remove_tabs@),
            tab_order: views(self.tab_order@),
            set_meta: meta_views(self.set_meta@),
            respawn_tabs: tab_views(self.respawn_tabs@),
        }
    }
}

/// The views of a sequence of updates.
pub open spec fn update_views(s: Seq<WindowUpdate>) -> Seq<WindowUpdateView> {
    s.map_values(|u: WindowUpdate| u@)
}

/// What to open, close and change.
#[derive(Debug, PartialEq)]
pub struct Reconciliation {
    pub open: Vec<Window>,
    /// The titles of the windows that are gone.
    pub close: Vec<String>,
    pub update: Vec<WindowUpdate>,
}

#[verifier::ext_equal]
pub ghost struct ReconciliationView {
    pub open: Seq<WindowView>,
    pub close: Seq<Seq<char>>,
    pub update: Seq<WindowUpdateView>,
}

impl View for Reconciliation {
    type V = ReconciliationView;

    open spec fn view(&self) -> ReconciliationView {
        ReconciliationView {
            open: window_views(self.open@),
            close: views(self.close@),
            update: update_views(self.update@),
        }
    }
}

/// The first of `windows` titled `title`.
pub open spec fn first_titled(windows: Seq<WindowView>, title: Seq<char>) -> Option<WindowView>
    decreases windows.len(),
{
    if windows.len() == 0 {
        None
    } else if windows[0].title == title {
        Some(windows[0])
    } else {
        first_titled(windows.skip(1), title)
    }
}

/// The first of `tabs` with identity `key`.
pub open spec fn first_keyed(tabs: Seq<TabView>, key: Seq<char>) -> Option<TabView>
    decreases tabs.len(),
{
    if tabs.len() == 0 {
        None
    } else if tabs[0].key == key {
        Some(tabs[0])
    } else {
        first_keyed(tabs.skip(1), key)
    }
}

/// The identities of `tabs`, in order.
pub open spec fn keys_of(tabs: Seq<TabView>) -> Seq<Seq<char>> {
    tabs.map_values(|t: TabView| t.key)
}

/// Those of `tabs` whose identity none of `others` has.
pub open spec fn tabs_not_in(tabs: Seq<TabView>, others: Seq<TabView>) -> Seq<TabView>
    decreases tabs.len(),
{
    if tabs.len() == 0 {
        Seq::empty()
    } else if has_key(others, tabs.last().key) {
        tabs_not_in(tabs.drop_last(), others)
    } else {
        tabs_not_in(tabs.drop_last(), others).push(tabs.last())
    }
}

/// The identities of those of `tabs` that one of `others` has too.
pub open spec fn shared_keys(tabs: Seq<TabView>, others: Seq<TabView>) -> Seq<Seq<char>>
    decreases tabs.len(),
{
    if tabs.len() == 0 {
        Seq::empty()
    } else if has_key(others, tabs.last().key) {
        shared_keys(tabs.drop_last(), others).push(tabs.last().key)
    } else {
        shared_keys(tabs.drop_last(), others)
    }
}

/// What can change of a tab without touching its terminal.
pub open spec fn meta_of(t: TabView) -> TabMetaView {
    TabMetaView { title: t.title, group: t.group, probe: t.probe, kill: t.kill, split: t.split }
}

/// Whether two tabs run the same terminal.
pub open spec fn same_terminal(a: TabView, b: TabView) -> bool {
    a.dir == b.dir && a.shell == b.shell && a.startup == b.startup
}

/// The new metadata of those of `tabs` that are kept from `old` and changed.
pub open spec fn changed_meta(tabs: Seq<TabView>, old: Seq<TabView>) -> Seq<
    (Seq<char>, TabMetaView),
>
    decreases tabs.len(),
{
    if tabs.len() == 0 {
        Seq::empty()
    } else {
        let before = changed_meta(tabs.drop_last(), old);
        let t = tabs.last();
        match first_keyed(old, t.key) {
            Some(o) => if meta_of(o) != meta_of(t) {
                before.push((t.key, meta_of(t)))
            } else {
                before
            },
            None => before,
        }
    }
}

/// Whether the terminal of `t`, kept from `o`, has to be spawned anew: one of
/// them is known by an explicit identity, and what it runs changed.
pub open spec fn needs_respawn(t: TabView, o: TabView) -> bool {
    (t.id is Some || o.id is Some) && !same_terminal(o, t)
}

/// Those of `tabs` that are kept from `old` and have to be spawned anew.
pub open spec fn respawned(tabs: Seq<TabView>, old: Seq<TabView>) -> Seq<TabView>
    decreases tabs.len(),
{
    if tabs.len() == 0 {
        Seq::empty()
    } else {
        let before = respawned(tabs.drop_last(), old);
        let t = tabs.last();
        match first_keyed(old, t.key) {
            Some(o) => if needs_respawn(t, o) {
                before.push(t)
            } else {
                before
            },
            None => before,
        }
    }
}

/// The changes that turn window `o` into window `n`, whether or not there are
/// any.
pub open spec fn changes(o: WindowView, n: WindowView) -> WindowUpdateView {
    WindowUpdateView {
        title: n.title,
        colour: if o.colour != n.colour {
            Some(n.colour)
        } else {
            None
        },
        add_tabs: tabs_not_in(n.tabs, o.tabs),
        remove_tabs: keys_of(tabs_not_in(o.tabs, n.tabs)),
        tab_order: keys_of(n.tabs),
        set_meta: changed_meta(n.tabs, o.tabs),
        respawn_tabs: respawned(n.tabs, o.tabs),
    }
}

/// Whether there is anything to do to turn window `o` into window `n`.
pub open spec fn differs(o: WindowView, n: WindowView) -> bool {
    let u = changes(o, n);
    ||| u.colour is Some
    ||| u.add_tabs.len() > 0
    ||| u.remove_tabs.len() > 0
    ||| shared_keys(o.tabs, n.tabs) != shared_keys(n.tabs, o.tabs)
    ||| u.set_meta.len() > 0
    ||| u.respawn_tabs.len() > 0
}

/// The titles of those of `windows` that none of `others` has.
pub open spec fn titles_not_in(windows: Seq<WindowView>, others: Seq<WindowView>) -> Seq<Seq<char>>
    decreases windows.len(),
{
    if windows.len() == 0 {
        Seq::empty()
    } else if has_title(others, windows.last().title) {
        titles_not_in(windows.drop_last(), others)
    } else {
        titles_not_in(windows.drop_last(), others).push(windows.last().title)
    }
}

/// Those of `windows` whose title none of `old` has.
pub open spec fn windows_not_in(windows: Seq<WindowView>, old: Seq<WindowView>) -> Seq<WindowView>
    decreases windows.len(),
{
    if windows.len() == 0 {
        Seq::empty()
    } else if has_title(old, windows.last().title) {
        windows_not_in(windows.drop_last(), old)
    } else {
        windows_not_in(windows.drop_last(), old).push(windows.last())
    }
}

/// The changes to those of `windows` that are kept from `old`.
pub open spec fn updates(windows: Seq<WindowView>, old: Seq<WindowView>) -> Seq<WindowUpdateView>
    decreases windows.len(),
{
    if windows.len() == 0 {
        Seq::empty()
    } else {
        let before = updates(windows.drop_last(), old);
        let n = windows.last();
        match first_titled(old, n.title) {
            Some(o) => if differs(o, n) {
                before.push(changes(o, n))
            } else {
                before
            },
            None => before,
        }
    }
}

/// The operations that bring a session from `old` to `new`. Windows are
/// matched by title, so renaming one closes it and opens another.
pub open spec fn difference(old: ConfigView, new: ConfigView) -> ReconciliationView {
    ReconciliationView {
        open: windows_not_in(new.windows, old.windows),
        close: titles_not_in(old.windows, new.windows),
        update: updates(new.windows, old.windows),
    }
}

/// A title is found exactly where some window has it.
pub proof fn lemma_first_titled(windows: Seq<WindowView>, title: Seq<char>)
    ensures
        first_titled(windows, title) is Some == has_title(windows, title),
        first_titled(windows, title) matches Some(w) ==> w.title == title && windows.contains(w),
    decreases windows.len(),
{
    if windows.len() > 0 {
        let rest = windows.skip(1);
        lemma_first_titled(rest, title);
        if windows[0].title == title {
            assert(windows.contains(windows[0]));
        } else {
            if has_title(rest, title) {
                let i = choose|i: int| 0 <= i < rest.len() && (#[trigger] rest[i]).title == title;
                assert(windows[i + 1].title == title);
                let w = first_titled(rest, title)->0;
                let j = choose|j: int| 0 <= j < rest.len() && rest[j] == w;
                assert(windows[j + 1] == w);
            }
            if has_title(windows, title) {
                let i = choose|i: int|
                    0 <= i < windows.len() && (#[trigger] windows[i]).title == title;
                assert(rest[i - 1].title == title);
            }
        }
    }
}

/// An identity is found exactly where some tab has it.
pub proof fn lemma_first_keyed(tabs: Seq<TabView>, key: Seq<char>)
    ensures
        first_keyed(tabs, key) is Some == has_key(tabs, key),
        first_keyed(tabs, key) matches Some(t) ==> t.key == key && tabs.contains(t),
    decreases tabs.len(),
{
    if tabs.len() > 0 {
        let rest = tabs.skip(1);
        lemma_first_keyed(rest, key);
        if tabs[0].key == key {
            assert(tabs.contains(tabs[0]));
        } else {
            if has_key(rest, key) {
                let i = choose|i: int| 0 <= i < rest.len() && (#[trigger] rest[i]).key == key;
                assert(tabs[i + 1].key == key);
                let t = first_keyed(rest, key)->0;
                let j = choose|j: int| 0 <= j < rest.len() && rest[j] == t;
                assert(tabs[j + 1] == t);
            }
            if has_key(tabs, key) {
                let i = choose|i: int| 0 <= i < tabs.len() && (#[trigger] tabs[i]).key == key;
                assert(rest[i - 1].key == key);
            }
        }
    }
}

/// The index of the first of `windows` titled `name`.
pub fn find(windows: &Vec<Window>, name: &str) -> (r: Option<usize>)
    ensures
        match r {
            Some(i) => i < windows.len() && first_titled(window_views(windows@), name@) == Some(
                windows@[i as int]@,
            ),
            None => first_titled(window_views(windows@), name@) is None,
        },
{
    let ghost wv = window_views(windows@);
    let mut i: usize = 0;
    assert(wv.skip(0) =~= wv);
    while i < windows.len()
        invariant
            i <= windows.len(),
            wv == window_views(windows@),
            first_titled(wv, name@) == first_titled(wv.skip(i as int), name@),
        decreases windows.len() - i,
    {
        assert(wv.skip(i as int)[0] == windows@[i as int]@);
        assert(wv.skip(i as int).skip(1) =~= wv.skip(i + 1));
        if same(windows[i].title.as_str(), name) {
            return Some(i);
        }
        i = i + 1;
    }
    None
}

/// The index of the first of `tabs` with identity `key`.
pub fn find_tab(tabs: &Vec<Tab>, key: &str) -> (r: Option<usize>)
    ensures
        match r {
            Some(i) => i < tabs.len() && first_keyed(tab_views(tabs@), key@) == Some(
                tabs@[i as int]@,
            ),
            None => first_keyed(tab_views(tabs@), key@) is None,
        },
        r is Some == has_key(tab_views(tabs@), key@),
{
    let ghost tv = tab_views(tabs@);
    proof {
        lemma_first_keyed(tv, key@);
    }
    let mut i: usize = 0;
    assert(tv.skip(0) =~= tv);
    while i < tabs.len()
        invariant
            i <= tabs.len(),
            tv == tab_views(tabs@),
            first_keyed(tv, key@) is Some == has_key(tv, key@),
            first_keyed(tv, key@) == first_keyed(tv.skip(i as int), key@),
        decreases tabs.len() - i,
    {
        assert(tv.skip(i as int)[0] == tabs@[i as int]@);
        assert(tv.skip(i as int).skip(1) =~= tv.skip(i + 1));
        if same(tabs[i].key.as_str(), key) {
            return Some(i);
        }
        i = i + 1;
    }
    None
}

/// What can change of a tab without touching its terminal.
pub fn tab_meta(t: &Tab) -> (r: TabMeta)
    ensures
        r@ == meta_of(t@),
{
    TabMeta {
        title: t.title.clone(),
        group: copy_opt(&t.group),
        probe: copy_opt(&t.probe),
        kill: copy_opt(&t.kill),
        split: copy_split(&t.split),
    }
}

fn meta_changed(o: &Tab, n: &Tab) -> (r: bool)
    ensures
        r == (meta_of(o@) != meta_of(n@)),
{
    !(same(o.title.as_str(), n.title.as_str()) && same_opt(&o.group, &n.group) && same_opt(
        &o.probe,
        &n.probe,
    ) && same_opt(&o.kill, &n.kill) && same_split(&o.split, &n.split))
}

fn terminal_changed(o: &Tab, n: &Tab) -> (r: bool)
    ensures
        r == needs_respawn(n@, o@),
{
    (n.id.is_some() || o.id.is_some()) && !(same(o.dir.as_str(), n.dir.as_str()) && same(
        o.shell.as_str(),
        n.shell.as_str(),
    ) && same_opt(&o.startup, &n.startup))
}

/// Those of `tabs` whose identity none of `others` has.
fn only_in(tabs: &Vec<Tab>, others: &Vec<Tab>) -> (r: Vec<Tab>)
    ensures
        tab_views(r@) == tabs_not_in(tab_views(tabs@), tab_views(others@)),
{
    let ghost tv = tab_views(tabs@);
    let ghost ov = tab_views(others@);
    let mut out: Vec<Tab> = Vec::new();
    assert(tab_views(out@) =~= tabs_not_in(tv.take(0), ov));
    let mut i: usize = 0;
    while i < tabs.len()
        invariant
            i <= tabs.len(),
            tv == tab_views(tabs@),
            ov == tab_views(others@),
            tab_views(out@) == tabs_not_in(tv.take(i as int), ov),
        decreases tabs.len() - i,
    {
        let ghost before = out@;
        assert(tv.take(i + 1).drop_last() =~= tv.take(i as int));
        assert(tv.take(i + 1).last() == tabs@[i as int]@);
        if find_tab(others, tabs[i].key.as_str()).is_none() {
            out.push(tabs[i].clone());
            assert(tab_views(out@) =~= tab_views(before).push(tabs@[i as int]@));
        }
        i = i + 1;
    }
    assert(tv.take(i as int) =~= tv);
    out
}

/// The identities of `tabs`, in order.
pub fn tab_keys(tabs: &Vec<Tab>) -> (r: Vec<String>)
    ensures
        views(r@) == keys_of(tab_views(tabs@)),
{
    let mut out: Vec<String> = Vec::new();
    let mut i: usize = 0;
    while i < tabs.len()
        invariant
            i <= tabs.len(),
            out.len() == i,
            forall|k: int| 0 <= k < i ==> #[trigger] out@[k]@ == tabs@[k].key@,
        decreases tabs.len() - i,
    {
        out.push(tabs[i].key.clone());
        i = i + 1;
    }
    assert(views(out@) =~= keys_of(tab_views(tabs@)));
    out
}

/// The identities of those of `tabs` that one of `others` has too.
fn kept_keys(tabs: &Vec<Tab>, others: &Vec<Tab>) -> (r: Vec<String>)
    ensures
        views(r@) == shared_keys(tab_views(tabs@), tab_views(others@)),
{
    let ghost tv = tab_views(tabs@);
    let ghost ov = tab_views(others@);
    let mut out: Vec<String> = Vec::new();
    assert(views(out@) =~= shared_keys(tv.take(0), ov));
    let mut i: usize = 0;
    while i < tabs.len()
        invariant
            i <= tabs.len(),
            tv == tab_views(tabs@),
            ov == tab_views(others@),
            views(out@) == shared_keys(tv.take(i as int), ov),
        decreases tabs.len() - i,
    {
        let ghost before = out@;
        assert(tv.take(i + 1).drop_last() =~= tv.take(i as int));
        assert(tv.take(i + 1).last() == tabs@[i as int]@);
        if find_tab(others, tabs[i].key.as_str()).is_some() {
            out.push(tabs[i].key.clone());
            assert(views(out@) =~= views(before).push(tabs@[i as int].key@));
        }
        i = i + 1;
    }
    assert(tv.take(i as int) =~= tv);
    out
}

/// Whether two lists of strings are equal.
pub fn same_list(a: &Vec<String>, b: &Vec<String>) -> (r: bool)
    ensures
        r == (views(a@) == views(b@)),
{
    let ghost av = views(a@);
    let ghost bv = views(b@);
    assert(av.len() == a.len() && bv.len() == b.len());
    if a.len() != b.len() {
        return false;
    }
    let mut i: usize = 0;
    while i < a.len()
        invariant
            i <= a.len() == b.len(),
            av == views(a@),
            bv == views(b@),
            forall|k: int| 0 <= k < i ==> av[k] == bv[k],
        decreases a.len() - i,
    {
        assert(av[i as int] == a@[i as int]@);
        assert(bv[i as int] == b@[i as int]@);
        if !same(a[i].as_str(), b[i].as_str()) {
            return false;
        }
        i = i + 1;
    }
    assert(av =~= bv);
    true
}

fn meta_changes(tabs: &Vec<Tab>, old: &Vec<Tab>) -> (r: Vec<(String, TabMeta)>)
    ensures
        meta_views(r@) == changed_meta(tab_views(tabs@), tab_views(old@)),
{
    let ghost tv = tab_views(tabs@);
    let ghost ov = tab_views(old@);
    let mut out: Vec<(String, TabMeta)> = Vec::new();
    assert(meta_views(out@) =~= changed_meta(tv.take(0), ov));
    let mut i: usize = 0;
    while i < tabs.len()
        invariant
            i <= tabs.len(),
            tv == tab_views(tabs@),
            ov == tab_views(old@),
            meta_views(out@) == changed_meta(tv.take(i as int), ov),
        decreases tabs.len() - i,
    {
        let ghost before = out@;
        assert(tv.take(i + 1).drop_last() =~= tv.take(i as int));
        assert(tv.take(i + 1).last() == tabs@[i as int]@);
        match find_tab(old, tabs[i].key.as_str()) {
            Some(j) => {
                if meta_changed(&old[j], &tabs[i]) {
                    out.push((tabs[i].key.clone(), tab_meta(&tabs[i])));
                    assert(meta_views(out@) =~= meta_views(before).push(
                        (tabs@[i as int].key@, meta_of(tabs@[i as int]@)),
                    ));
                }
            },
            None => {},
        }
        i = i + 1;
    }
    assert(tv.take(i as int) =~= tv);
    out
}

fn respawns(tabs: &Vec<Tab>, old: &Vec<Tab>) -> (r: Vec<Tab>)
    ensures
        tab_views(r@) == respawned(tab_views(tabs@), tab_views(old@)),
{
    let ghost tv = tab_views(tabs@);
    let ghost ov = tab_views(old@);
    let mut out: Vec<Tab> = Vec::new();
    assert(tab_views(out@) =~= respawned(tv.take(0), ov));
    let mut i: usize = 0;
    while i < tabs.len()
        invariant
            i <= tabs.len(),
            tv == tab_views(tabs@),
            ov == tab_views(old@),
            tab_views(out@) == respawned(tv.take(i as int), ov),
        decreases tabs.len() - i,
    {
        let ghost before = out@;
        assert(tv.take(i + 1).drop_last() =~= tv.take(i as int));
        assert(tv.take(i + 1).last() == tabs@[i as int]@);
        match find_tab(old, tabs[i].key.as_str()) {
            Some(j) => {
                if terminal_changed(&old[j], &tabs[i]) {
                    out.push(tabs[i].clone());
                    assert(tab_views(out@) =~= tab_views(before).push(tabs@[i as int]@));
                }
            },
            None => {},
        }
        i = i + 1;
    }
    assert(tv.take(i as int) =~= tv);
    out
}

/// The changes that turn window `o` into window `n`, or `None` where there are
/// none.
pub fn window_update(o: &Window, n: &Window) -> (r: Option<WindowUpdate>)
    ensures
        match r {
            Some(u) => differs(o@, n@) && u@ == changes(o@, n@),
            None => !differs(o@, n@),
        },
{
    let colour: Option<Colour> = if o.colour != n.colour {
        Some(n.colour)
    } else {
        None
    };
    let add_tabs: Vec<Tab> = only_in(&n.tabs, &o.tabs);
    let gone: Vec<Tab> = only_in(&o.tabs, &n.tabs);
    let remove_tabs: Vec<String> = tab_keys(&gone);
    let kept_old: Vec<String> = kept_keys(&o.tabs, &n.tabs);
    let kept_new: Vec<String> = kept_keys(&n.tabs, &o.tabs);
    let order_changed: bool = !same_list(&kept_old, &kept_new);
    let tab_order: Vec<String> = tab_keys(&n.tabs);
    let set_meta: Vec<(String, TabMeta)> = meta_changes(&n.tabs, &o.tabs);
    let respawn_tabs: Vec<Tab> = respawns(&n.tabs, &o.tabs);
    assert(changes(o@, n@).add_tabs.len() == add_tabs.len());
    assert(changes(o@, n@).remove_tabs.len() == remove_tabs.len());
    assert(changes(o@, n@).set_meta.len() == set_meta.len());
    assert(changes(o@, n@).respawn_tabs.len() == respawn_tabs.len());
    if colour.is_some() || add_tabs.len() > 0 || remove_tabs.len() > 0 || order_changed
        || set_meta.len() > 0 || respawn_tabs.len() > 0 {
        Some(
            WindowUpdate {
                title: n.title.clone(),
                colour,
                add_tabs,
                remove_tabs,
                tab_order,
                set_meta,
                respawn_tabs,
            },
        )
    } else {
        None
    }
}

/// Compare two configurations and return the operations that bring a running
/// session from `old` to `new`.
pub fn reconcile(old: &Config, new: &Config) -> (r: Reconciliation)
    ensures
        r@ == difference(old@, new@),
{
    let ghost ov = window_views(old.windows@);
    let ghost nv = window_views(new.windows@);
    let mut close: Vec<String> = Vec::new();
    assert(views(close@) =~= titles_not_in(ov.take(0), nv));
    let mut i: usize = 0;
    while i < old.windows.len()
        invariant
            i <= old.windows.len(),
            ov == window_views(old.windows@),
            nv == window_views(new.windows@),
            views(close@) == titles_not_in(ov.take(i as int), nv),
        decreases old.windows.len() - i,
    {
        let ghost before = close@;
        assert(ov.take(i + 1).drop_last() =~= ov.take(i as int));
        assert(ov.take(i + 1).last() == old.windows@[i as int]@);
        proof {
            lemma_first_titled(nv, old.windows@[i as int].title@);
        }
        if find(&new.windows, old.windows[i].title.as_str()).is_none() {
            close.push(old.windows[i].title.clone());
            assert(views(close@) =~= views(before).push(old.windows@[i as int].title@));
        }
        i = i + 1;
    }
    assert(ov.take(i as int) =~= ov);
    let mut open: Vec<Window> = Vec::new();
    let mut update: Vec<WindowUpdate> = Vec::new();
    assert(window_views(open@) =~= windows_not_in(nv.take(0), ov));
    assert(update_views(update@) =~= updates(nv.take(0), ov));
    let mut j: usize = 0;
    while j < new.windows.len()
        invariant
            j <= new.windows.len(),
            ov == window_views(old.windows@),
            nv == window_views(new.windows@),
            window_views(open@) == windows_not_in(nv.take(j as int), ov),
            update_views(update@) == updates(nv.take(j as int), ov),
        decreases new.windows.len() - j,
    {
        let ghost open0 = open@;
        let ghost update0 = update@;
        assert(nv.take(j + 1).drop_last() =~= nv.take(j as int));
        assert(nv.take(j + 1).last() == new.windows@[j as int]@);
        proof {
            lemma_first_titled(ov, new.windows@[j as int].title@);
        }
        match find(&old.windows, new.windows[j].title.as_str()) {
            None => {
                open.push(new.windows[j].clone());
                assert(window_views(open@) =~= window_views(open0).push(new.windows@[j as int]@));
            },
            Some(k) => {
                match window_update(&old.windows[k], &new.windows[j]) {
                    Some(u) => {
                        update.push(u);
                        assert(update_views(update@) =~= update_views(update0).push(u@));
                    },
                    None => {},
                }
            },
        }
        j = j + 1;
    }
    assert(nv.take(j as int) =~= nv);
    Reconciliation { open, close, update }
}

} // verus!
