//! From a configuration to windows: labels, specs, menu entries, and the
//! operations of a reload.

use crate::colour::hex_text;
use crate::model::{
    copy_split, root_views, tab_views, window_views, Config, ConfigView, Root, RootView, Tab,
    TabView, Window, WindowView,
};
use crate::paths::{tree_path, tree_path_of};
use crate::reconcile::{
    find, find_tab, first_keyed, first_titled, meta_views, update_views, Reconciliation,
    ReconciliationView, TabMeta, TabMetaView, WindowUpdate, WindowUpdateView,
};
use crate::surface::{TabSpec, TabSpecView};
use crate::text::{
    chars_of, copy_list, copy_opt, decimal, holds, lemma_decimal_injective, opt_str, opt_view,
    owned, push_decimal, same, starts_with, string_of, views,
};
use vstd::prelude::*;

verus! {

/// The label of the home surface, which no window may have.
pub const HOME_LABEL: &'static str = "shell-home";

/// What the label of every popped-out window starts with.
pub const DETACHED_PREFIX: &'static str = "shell-detach:";

/// The characters a window label may hold.
pub open spec fn is_label_char(c: char) -> bool {
    ||| 'a' <= c <= 'z'
    ||| 'A' <= c <= 'Z'
    ||| '0' <= c <= '9'
    ||| c == '-'
    ||| c == '/'
    ||| c == ':'
    ||| c == '_'
}

/// `s` with a dash for every character that no label may hold.
pub open spec fn dashed(s: Seq<char>) -> Seq<char> {
    s.map_values(
        |c: char|
            if is_label_char(c) {
                c
            } else {
                '-'
            },
    )
}

/// `s` without its leading dashes.
pub open spec fn undashed_start(s: Seq<char>) -> Seq<char>
    decreases s.len(),
{
    if s.len() > 0 && s[0] == '-' {
        undashed_start(s.skip(1))
    } else {
        s
    }
}

/// `s` without its trailing dashes.
pub open spec fn undashed_end(s: Seq<char>) -> Seq<char>
    decreases s.len(),
{
    if s.len() > 0 && s.last() == '-' {
        undashed_end(s.drop_last())
    } else {
        s
    }
}

/// The label made of a title: dashes for what a label may not hold, none at
/// either end, and never empty.
pub open spec fn sanitized(name: Seq<char>) -> Seq<char> {
    let s = undashed_end(undashed_start(dashed(name)));
    if s.len() == 0 {
        "window"@
    } else {
        s
    }
}

/// `base` with a number behind it.
pub open spec fn suffixed(base: Seq<char>, n: nat) -> Seq<char> {
    base.push('-') + decimal(n)
}

/// The first number from `n` on whose suffix is not taken, among the next
/// `tries`.
pub open spec fn free_suffix(base: Seq<char>, taken: Seq<Seq<char>>, n: nat, tries: nat) -> nat
    decreases tries,
{
    if tries == 0 || !taken.contains(suffixed(base, n)) {
        n
    } else {
        free_suffix(base, taken, n + 1, (tries - 1) as nat)
    }
}

/// The label for a title where the labels `taken` are: the sanitized title, or
/// else the first of its `-2`, `-3`, … that is free.
pub open spec fn label_for(name: Seq<char>, taken: Seq<Seq<char>>) -> Seq<char> {
    let base = sanitized(name);
    if taken.contains(base) {
        suffixed(base, free_suffix(base, taken, 2, taken.len()))
    } else {
        base
    }
}

/// Whether a token holds `c` as it is. The colon is kept for what parts its two
/// halves, and the underscore for what marks a character by its number.
pub open spec fn is_token_char(c: char) -> bool {
    is_label_char(c) && c != ':' && c != '_'
}

/// What a token holds for `c`: the character, or else its number between
/// underscores.
pub open spec fn token_code(c: char) -> Seq<char> {
    if is_token_char(c) {
        seq![c]
    } else {
        seq!['_'] + decimal(c as nat) + seq!['_']
    }
}

/// `s` in the characters of one half of a token.
pub open spec fn escaped(s: Seq<char>) -> Seq<char>
    decreases s.len(),
{
    if s.len() == 0 {
        Seq::empty()
    } else {
        escaped(s.drop_last()) + token_code(s.last())
    }
}

/// The token of a popped-out tab's window.
pub open spec fn detach_token(origin: Seq<char>, tab: Seq<char>) -> Seq<char> {
    escaped(origin).push(':') + escaped(tab)
}

/// The last of `roots` named `name`.
pub open spec fn root_named(roots: Seq<RootView>, name: Seq<char>) -> Option<RootView>
    decreases roots.len(),
{
    if roots.len() == 0 {
        None
    } else if roots.last().name == name {
        Some(roots.last())
    } else {
        root_named(roots.drop_last(), name)
    }
}

/// Whether a tab of section `group` is a row of a project tree.
pub open spec fn in_tree(roots: Seq<RootView>, group: Option<Seq<char>>) -> bool {
    group is Some && root_named(roots, group->0) is Some
}

/// The folders above a tab of section `group` in its project tree.
pub open spec fn folders(roots: Seq<RootView>, group: Option<Seq<char>>, dir: Seq<char>) -> Seq<
    Seq<char>,
> {
    if in_tree(roots, group) {
        tree_path_of(root_named(roots, group->0)->0.dir, dir)
    } else {
        Seq::empty()
    }
}

/// A tab to materialize, and whether its terminal is spawned at once.
#[derive(Debug, PartialEq)]
pub struct TabPlan {
    pub spec: TabSpec,
    pub load_on_open: bool,
}

pub ghost struct TabPlanView {
    pub spec: TabSpecView,
    pub load_on_open: bool,
}

impl View for TabPlan {
    type V = TabPlanView;

    open spec fn view(&self) -> TabPlanView {
        TabPlanView { spec: self.spec@, load_on_open: self.load_on_open }
    }
}

impl Clone for TabPlan {
    fn clone(&self) -> (r: Self)
        ensures
            r@ == self@,
    {
        TabPlan { spec: self.spec.clone(), load_on_open: self.load_on_open }
    }
}

/// The views of a sequence of plans.
pub open spec fn plan_views(s: Seq<TabPlan>) -> Seq<TabPlanView> {
    s.map_values(|p: TabPlan| p@)
}

/// The plan for one tab of a window with the given roots.
pub open spec fn plan_of(roots: Seq<RootView>, t: TabView) -> TabPlanView {
    TabPlanView {
        spec: TabSpecView {
            id: t.key,
            title: t.title,
            dir: t.dir,
            shell: t.shell,
            startup: t.startup,
            group: t.group,
            probe: t.probe,
            kill: t.kill,
            tree: in_tree(roots, t.group),
            tree_path: folders(roots, t.group, t.dir),
            split: t.split,
        },
        load_on_open: t.load_on_open,
    }
}

/// The plans for several tabs.
pub open spec fn plans_of(roots: Seq<RootView>, tabs: Seq<TabView>) -> Seq<TabPlanView> {
    tabs.map_values(|t: TabView| plan_of(roots, t))
}

/// Everything needed to build one window.
#[derive(Debug, PartialEq)]
pub struct WindowSpec {
    /// The label: sanitized and unique.
    pub label: String,
    pub title: String,
    /// The colour as `#rrggbb`.
    pub colour: String,
    pub width: u32,
    pub height: u32,
    pub open_on_start: bool,
    pub tabs: Vec<TabPlan>,
}

#[verifier::ext_equal]
pub ghost struct WindowSpecView {
    pub label: Seq<char>,
    pub title: Seq<char>,
    pub colour: Seq<char>,
    pub width: u32,
    pub height: u32,
    pub open_on_start: bool,
    pub tabs: Seq<TabPlanView>,
}

impl View for WindowSpec {
    type V = WindowSpecView;

    open spec fn view(&self) -> WindowSpecView {
        WindowSpecView {
            label: self.label@,
            title: self.title@,
            colour: self.colour@,
            width: self.width,
            height: self.height,
            open_on_start: self.open_on_start,
            tabs: plan_views(self.tabs@),
        }
    }
}

/// The views of a sequence of window specs.
pub open spec fn spec_views(s: Seq<WindowSpec>) -> Seq<WindowSpecView> {
    s.map_values(|w: WindowSpec| w@)
}

/// The spec of one window under label `label`.
pub open spec fn spec_of(w: WindowView, label: Seq<char>) -> WindowSpecView {
    WindowSpecView {
        label,
        title: w.title,
        colour: hex_text(w.colour),
        width: w.width,
        height: w.height,
        open_on_start: w.open_on_start,
        tabs: plans_of(w.roots, w.tabs),
    }
}

/// Name-to-label pairs.
pub open spec fn pair_views(s: Seq<(String, String)>) -> Seq<(Seq<char>, Seq<char>)> {
    s.map_values(|p: (String, String)| (p.0@, p.1@))
}

/// The label that `pairs` give `name`.
pub open spec fn label_of(pairs: Seq<(Seq<char>, Seq<char>)>, name: Seq<char>) -> Option<Seq<char>>
    decreases pairs.len(),
{
    if pairs.len() == 0 {
        None
    } else if pairs[0].0 == name {
        Some(pairs[0].1)
    } else {
        label_of(pairs.skip(1), name)
    }
}

/// Window specs, and every label that is spoken for.
#[verifier::ext_equal]
pub ghost struct Labelled {
    pub specs: Seq<WindowSpecView>,
    pub taken: Seq<Seq<char>>,
}

/// The specs of `windows`, in order: a window that `live` names keeps that
/// label, every other gets a free one.
pub open spec fn labelled(
    windows: Seq<WindowView>,
    live: Seq<(Seq<char>, Seq<char>)>,
    taken: Seq<Seq<char>>,
) -> Labelled
    decreases windows.len(),
{
    if windows.len() == 0 {
        Labelled { specs: Seq::empty(), taken }
    } else {
        let before = labelled(windows.drop_last(), live, taken);
        let w = windows.last();
        match label_of(live, w.title) {
            Some(l) => Labelled { specs: before.specs.push(spec_of(w, l)), taken: before.taken },
            None => {
                let l = label_for(w.title, before.taken);
                Labelled { specs: before.specs.push(spec_of(w, l)), taken: before.taken.push(l) }
            },
        }
    }
}

/// The specs of a whole configuration, with the live labels kept.
pub open spec fn configured(
    c: ConfigView,
    live: Seq<(Seq<char>, Seq<char>)>,
    live_labels: Seq<Seq<char>>,
) -> Seq<WindowSpecView> {
    labelled(c.windows, live, live_labels.push(HOME_LABEL@)).specs
}

/// One row of the Window menu.
#[derive(Debug, Clone, PartialEq)]
pub struct WindowMenuEntry {
    pub label: String,
    pub title: String,
    pub open: bool,
    pub colour: String,
}

pub ghost struct WindowMenuEntryView {
    pub label: Seq<char>,
    pub title: Seq<char>,
    pub open: bool,
    pub colour: Seq<char>,
}

impl View for WindowMenuEntry {
    type V = WindowMenuEntryView;

    open spec fn view(&self) -> WindowMenuEntryView {
        WindowMenuEntryView {
            label: self.label@,
            title: self.title@,
            open: self.open,
            colour: self.colour@,
        }
    }
}

/// The views of a sequence of menu entries.
pub open spec fn entry_views(s: Seq<WindowMenuEntry>) -> Seq<WindowMenuEntryView> {
    s.map_values(|e: WindowMenuEntry| e@)
}

/// The menu entries of `specs`, in order.
pub open spec fn entries_of(specs: Seq<WindowSpecView>, open: Seq<Seq<char>>) -> Seq<
    WindowMenuEntryView,
> {
    specs.map_values(
        |s: WindowSpecView|
            WindowMenuEntryView {
                label: s.label,
                title: s.title,
                open: open.contains(s.label),
                colour: s.colour,
            },
    )
}

/// The last of `closed` that is configured and not open.
pub open spec fn reopen_target(
    closed: Seq<Seq<char>>,
    configured: Seq<Seq<char>>,
    open: Seq<Seq<char>>,
) -> Option<Seq<char>>
    decreases closed.len(),
{
    if closed.len() == 0 {
        None
    } else if configured.contains(closed.last()) && !open.contains(closed.last()) {
        Some(closed.last())
    } else {
        reopen_target(closed.drop_last(), configured, open)
    }
}

/// New metadata for a kept tab, with its place in a project tree.
#[derive(Debug, PartialEq)]
pub struct MetaPlan {
    pub id: String,
    pub meta: TabMeta,
    pub tree: bool,
    pub tree_path: Vec<String>,
}

#[verifier::ext_equal]
pub ghost struct MetaPlanView {
    pub id: Seq<char>,
    pub meta: TabMetaView,
    pub tree: bool,
    pub tree_path: Seq<Seq<char>>,
}

impl View for MetaPlan {
    type V = MetaPlanView;

    open spec fn view(&self) -> MetaPlanView {
        MetaPlanView {
            id: self.id@,
            meta: self.meta@,
            tree: self.tree,
            tree_path: views(self.tree_path@),
        }
    }
}

/// The views of a sequence of metadata plans.
pub open spec fn meta_plan_views(s: Seq<MetaPlan>) -> Seq<MetaPlanView> {
    s.map_values(|m: MetaPlan| m@)
}

/// One operation on the live windows.
#[derive(Debug, PartialEq)]
pub enum WindowOp {
    Open(WindowSpec),
    /// Close the window with this label.
    Close(String),
    Update {
        label: String,
        /// The new colour as `#rrggbb`, where it changed.
        colour: Option<String>,
        add_tabs: Vec<TabPlan>,
        remove_tabs: Vec<String>,
        /// All tab identities in their new order.
        order: Vec<String>,
        set_meta: Vec<MetaPlan>,
        /// Kept tabs whose terminal is spawned anew.
        respawn_tabs: Vec<TabPlan>,
    },
}

#[verifier::ext_equal]
pub ghost struct TabUpdateView {
    pub label: Seq<char>,
    pub colour: Option<Seq<char>>,
    pub add_tabs: Seq<TabPlanView>,
    pub remove_tabs: Seq<Seq<char>>,
    pub order: Seq<Seq<char>>,
    pub set_meta: Seq<MetaPlanView>,
    pub respawn_tabs: Seq<TabPlanView>,
}

pub ghost enum WindowOpView {
    Open(WindowSpecView),
    Close(Seq<char>),
    Update(TabUpdateView),
}

impl View for WindowOp {
    type V = WindowOpView;

    open spec fn view(&self) -> WindowOpView {
        match self {
            WindowOp::Open(s) => WindowOpView::Open(s@),
            WindowOp::Close(l) => WindowOpView::Close(l@),
            WindowOp::Update {
                label,
                colour,
                add_tabs,
                remove_tabs,
                order,
                set_meta,
                respawn_tabs,
            } => WindowOpView::Update(
                TabUpdateView {
                    label: label@,
                    colour: opt_view(*colour),
                    add_tabs: plan_views(add_tabs@),
                    remove_tabs: views(remove_tabs@),
                    order: views(order@),
                    set_meta: meta_plan_views(set_meta@),
                    respawn_tabs: plan_views(respawn_tabs@),
                },
            ),
        }
    }
}

/// The views of a sequence of operations.
pub open spec fn op_views(s: Seq<WindowOp>) -> Seq<WindowOpView> {
    s.map_values(|o: WindowOp| o@)
}

/// The roots of the window titled `title`, if it is configured.
pub open spec fn roots_titled(windows: Seq<WindowView>, title: Seq<char>) -> Seq<RootView> {
    match first_titled(windows, title) {
        Some(w) => w.roots,
        None => Seq::empty(),
    }
}

/// The tabs of the window titled `title`, if it is configured.
pub open spec fn tabs_titled(windows: Seq<WindowView>, title: Seq<char>) -> Seq<TabView> {
    match first_titled(windows, title) {
        Some(w) => w.tabs,
        None => Seq::empty(),
    }
}

/// The metadata plan for one kept tab: where it stands in a project tree
/// follows from its new section.
pub open spec fn meta_plan_of(
    roots: Seq<RootView>,
    tabs: Seq<TabView>,
    m: (Seq<char>, TabMetaView),
) -> MetaPlanView {
    match first_keyed(tabs, m.0) {
        Some(t) => MetaPlanView {
            id: m.0,
            meta: m.1,
            tree: in_tree(roots, m.1.group),
            tree_path: folders(roots, m.1.group, t.dir),
        },
        None => MetaPlanView { id: m.0, meta: m.1, tree: false, tree_path: Seq::empty() },
    }
}

/// The operation for one update of the window labelled `label`.
pub open spec fn update_op(
    windows: Seq<WindowView>,
    u: WindowUpdateView,
    label: Seq<char>,
) -> TabUpdateView {
    let roots = roots_titled(windows, u.title);
    let tabs = tabs_titled(windows, u.title);
    TabUpdateView {
        label,
        colour: match u.colour {
            Some(c) => Some(hex_text(c)),
            None => None,
        },
        add_tabs: plans_of(roots, u.add_tabs),
        remove_tabs: u.remove_tabs,
        order: u.tab_order,
        set_meta: u.set_meta.map_values(
            |m: (Seq<char>, TabMetaView)| meta_plan_of(roots, tabs, m),
        ),
        respawn_tabs: plans_of(roots, u.respawn_tabs),
    }
}

/// Opening each of `windows` under a label of its own.
pub open spec fn open_ops(specs: Seq<WindowSpecView>) -> Seq<WindowOpView> {
    specs.map_values(|s: WindowSpecView| WindowOpView::Open(s))
}

/// Closing those of the windows named `names` that have a label.
pub open spec fn close_ops(
    names: Seq<Seq<char>>,
    labels: Seq<(Seq<char>, Seq<char>)>,
) -> Seq<WindowOpView>
    decreases names.len(),
{
    if names.len() == 0 {
        Seq::empty()
    } else {
        let before = close_ops(names.drop_last(), labels);
        match label_of(labels, names.last()) {
            Some(l) => before.push(WindowOpView::Close(l)),
            None => before,
        }
    }
}

/// Updating those of the windows that have a label.
pub open spec fn update_ops(
    windows: Seq<WindowView>,
    us: Seq<WindowUpdateView>,
    labels: Seq<(Seq<char>, Seq<char>)>,
) -> Seq<WindowOpView>
    decreases us.len(),
{
    if us.len() == 0 {
        Seq::empty()
    } else {
        let before = update_ops(windows, us.drop_last(), labels);
        match label_of(labels, us.last().title) {
            Some(l) => before.push(WindowOpView::Update(update_op(windows, us.last(), l))),
            None => before,
        }
    }
}

/// The operations of a reconciliation: what opens, then what closes, then what
/// changes.
pub open spec fn ops_of(
    recon: ReconciliationView,
    new: ConfigView,
    labels: Seq<(Seq<char>, Seq<char>)>,
    taken: Seq<Seq<char>>,
) -> Seq<WindowOpView> {
    open_ops(labelled(recon.open, Seq::empty(), taken.push(HOME_LABEL@)).specs) + close_ops(
        recon.close,
        labels,
    ) + update_ops(new.windows, recon.update, labels)
}

fn label_char(c: char) -> (r: bool)
    ensures
        r == is_label_char(c),
{
    ('a' <= c && c <= 'z') || ('A' <= c && c <= 'Z') || ('0' <= c && c <= '9') || c == '-' || c
        == '/' || c == ':' || c == '_'
}

/// Map a title to the characters a label may hold.
pub fn sanitize_label(name: &str) -> (r: String)
    ensures
        r@ == sanitized(name@),
{
    let cs: Vec<char> = chars_of(name);
    let mut ds: Vec<char> = Vec::new();
    let mut i: usize = 0;
    while i < cs.len()
        invariant
            i <= cs.len(),
            ds.len() == i,
            forall|k: int| 0 <= k < i ==> #[trigger] ds@[k] == dashed(cs@)[k],
        decreases cs.len() - i,
    {
        ds.push(
            if label_char(cs[i]) {
                cs[i]
            } else {
                '-'
            },
        );
        i = i + 1;
    }
    assert(ds@ =~= dashed(name@));
    let mut from: usize = 0;
    assert(ds@.skip(0) =~= ds@);
    while from < ds.len() && ds[from] == '-'
        invariant
            from <= ds.len(),
            undashed_start(ds@) == undashed_start(ds@.skip(from as int)),
        decreases ds.len() - from,
    {
        assert(ds@.skip(from as int).skip(1) =~= ds@.skip(from + 1));
        from = from + 1;
    }
    let ghost mid = ds@.skip(from as int);
    assert(undashed_start(ds@) == mid);
    let mut to: usize = ds.len();
    assert(ds@.subrange(from as int, to as int) =~= mid);
    while to > from && ds[to - 1] == '-'
        invariant
            from <= to <= ds.len(),
            undashed_end(mid) == undashed_end(ds@.subrange(from as int, to as int)),
        decreases to,
    {
        let ghost s = ds@.subrange(from as int, to as int);
        assert(s.last() == ds@[to - 1]);
        assert(s.drop_last() =~= ds@.subrange(from as int, to - 1));
        to = to - 1;
    }
    let ghost s = ds@.subrange(from as int, to as int);
    assert(undashed_end(mid) == s) by {
        if s.len() > 0 {
            assert(s.last() == ds@[to - 1]);
        }
    }
    if from == to {
        owned("window")
    } else {
        string_of(&ds, from, to)
    }
}

/// Append what a token holds for a character.
fn push_code(out: &mut String, c: char)
    ensures
        final(out)@ == old(out)@ + token_code(c),
{
    if label_char(c) && c != ':' && c != '_' {
        out.push(c);
    } else {
        let n: u32 = c as u32;
        out.push('_');
        push_decimal(out, n as u128);
        out.push('_');
    }
    assert(out@ =~= old(out)@ + token_code(c));
}

/// Append a text in the characters of one half of a token.
fn push_escaped(out: &mut String, s: &str)
    ensures
        final(out)@ == old(out)@ + escaped(s@),
{
    let ghost start = out@;
    let cs: Vec<char> = chars_of(s);
    let mut i: usize = 0;
    assert(out@ =~= start + escaped(s@.take(0)));
    while i < cs.len()
        invariant
            i <= cs.len(),
            cs@ == s@,
            out@ == start + escaped(s@.take(i as int)),
        decreases cs.len() - i,
    {
        assert(s@.take(i + 1).drop_last() =~= s@.take(i as int));
        push_code(out, cs[i]);
        i = i + 1;
        assert(out@ =~= start + escaped(s@.take(i as int)));
    }
    assert(s@.take(i as int) =~= s@);
}

/// The token of a popped-out tab's window, built from the label of the window
/// it came from and the tab's identity. No two tabs share one.
pub fn detach_window_token(origin_label: &str, tab_id: &str) -> (r: String)
    ensures
        r@ == detach_token(origin_label@, tab_id@),
{
    let mut s: String = String::new();
    push_escaped(&mut s, origin_label);
    s.push(':');
    push_escaped(&mut s, tab_id);
    assert(s@ =~= detach_token(origin_label@, tab_id@));
    s
}

/// The label of the popped-out window with token `token`.
pub fn detached_label(token: &str) -> (r: String)
    ensures
        r@ == DETACHED_PREFIX@ + token@,
{
    let mut s: String = owned(DETACHED_PREFIX);
    s.append(token);
    s
}

/// Whether a label is that of a popped-out window.
pub fn is_detached_label(label: &str) -> (r: bool)
    ensures
        r == starts_with(label@, DETACHED_PREFIX@),
{
    let cs: Vec<char> = chars_of(label);
    let ps: Vec<char> = chars_of(DETACHED_PREFIX);
    if cs.len() < ps.len() {
        return false;
    }
    let mut i: usize = 0;
    while i < ps.len()
        invariant
            i <= ps.len() <= cs.len(),
            cs@ == label@,
            ps@ == DETACHED_PREFIX@,
            forall|k: int| 0 <= k < i ==> cs@[k] == ps@[k],
        decreases ps.len() - i,
    {
        if cs[i] != ps[i] {
            assert(cs@.take(ps@.len() as int)[i as int] != ps@[i as int]);
            return false;
        }
        i = i + 1;
    }
    assert(cs@.take(ps@.len() as int) =~= ps@);
    true
}

/// The suffixes of a base are distinct.
proof fn lemma_suffixed_injective(base: Seq<char>, a: nat, b: nat)
    requires
        suffixed(base, a) == suffixed(base, b),
    ensures
        a == b,
{
    let n = base.len() + 1;
    assert(suffixed(base, a).skip(n as int) =~= decimal(a));
    assert(suffixed(base, b).skip(n as int) =~= decimal(b));
    lemma_decimal_injective(a, b);
}

/// As many taken labels as there are taken suffixes.
proof fn lemma_taken_bound(base: Seq<char>, taken: Seq<Seq<char>>, n: nat)
    requires
        n >= 2,
        forall|m: nat| 2 <= m < n ==> taken.contains(#[trigger] suffixed(base, m)),
        taken.contains(base),
    ensures
        n <= taken.len() + 1,
{
    let tried = Seq::new((n - 2) as nat, |i: int| suffixed(base, (i + 2) as nat)).push(base);
    assert(tried.no_duplicates()) by {
        assert forall|i: int, j: int| 0 <= i < j < tried.len() implies tried[i] != tried[j] by {
            if tried[i] == tried[j] {
                if j < n - 2 {
                    lemma_suffixed_injective(base, (i + 2) as nat, (j + 2) as nat);
                } else {
                    assert(suffixed(base, (i + 2) as nat).len() > base.len());
                }
            }
        }
    }
    tried.unique_seq_to_set();
    taken.lemma_cardinality_of_set();
    assert(tried.to_set().subset_of(taken.to_set())) by {
        assert forall|x: Seq<char>| tried.to_set().contains(x) implies taken.to_set().contains(
            x,
        ) by {
            let i = choose|i: int| 0 <= i < tried.len() && tried[i] == x;
            if i < n - 2 {
                assert(taken.contains(suffixed(base, (i + 2) as nat)));
            }
        }
    }
    vstd::set_lib::lemma_len_subset(tried.to_set(), taken.to_set());
}

/// Trying suffixes from `n` on finds the first free one.
pub proof fn lemma_free_suffix(base: Seq<char>, taken: Seq<Seq<char>>, n: nat, tries: nat)
    requires
        n >= 2,
        taken.contains(base),
        forall|m: nat| 2 <= m < n ==> taken.contains(#[trigger] suffixed(base, m)),
        n + tries == taken.len() + 2,
    ensures
        !taken.contains(suffixed(base, free_suffix(base, taken, n, tries))),
        free_suffix(base, taken, n, tries) >= n,
        forall|m: nat|
            2 <= m < free_suffix(base, taken, n, tries) ==> taken.contains(
                #[trigger] suffixed(base, m),
            ),
    decreases tries,
{
    if taken.contains(suffixed(base, n)) {
        lemma_taken_bound(base, taken, n + 1);
        assert(tries > 0);
        lemma_free_suffix(base, taken, n + 1, (tries - 1) as nat);
    }
}

/// The sanitized title, suffixed until it is not in `taken`.
pub fn unique_label(name: &str, taken: &Vec<String>) -> (r: String)
    ensures
        r@ == label_for(name@, views(taken@)),
{
    let base: String = sanitize_label(name);
    if !holds(taken, base.as_str()) {
        return base;
    }
    let ghost tv = views(taken@);
    let total: usize = taken.len();
    assert(tv.len() == total);
    let mut n: u128 = 2;
    loop
        invariant
            2 <= n,
            tv.len() == total,
            tv == views(taken@),
            tv.contains(base@),
            base@ == sanitized(name@),
            forall|m: nat| 2 <= m < n ==> tv.contains(#[trigger] suffixed(base@, m)),
            n <= tv.len() + 2,
            free_suffix(base@, tv, 2, tv.len()) == free_suffix(
                base@,
                tv,
                n as nat,
                (tv.len() + 2 - n) as nat,
            ),
        decreases tv.len() + 2 - n,
    {
        let mut cand: String = base.clone();
        cand.push('-');
        push_decimal(&mut cand, n);
        assert(cand@ == suffixed(base@, n as nat));
        if !holds(taken, cand.as_str()) {
            return cand;
        }
        proof {
            lemma_taken_bound(base@, tv, (n + 1) as nat);
        }
        n = n + 1;
    }
}

/// Where a tab of section `group` stands in a project tree: whether it does,
/// and the folders above it.
pub fn derive_tree_meta(roots: &Vec<Root>, group: Option<&str>, dir: &str) -> (r: (
    bool,
    Vec<String>,
))
    ensures
        r.0 == in_tree(root_views(roots@), opt_str(group)),
        views(r.1@) == folders(root_views(roots@), opt_str(group), dir@),
{
    let ghost rv = root_views(roots@);
    let none: Vec<String> = Vec::new();
    assert(views(none@) =~= Seq::empty());
    match group {
        None => (false, none),
        Some(g) => {
            let mut i: usize = roots.len();
            assert(rv.take(i as int) =~= rv);
            while i > 0
                invariant
                    i <= roots.len(),
                    rv == root_views(roots@),
                    group == Some(g),
                    views(none@) == Seq::<Seq<char>>::empty(),
                    root_named(rv, g@) == root_named(rv.take(i as int), g@),
                decreases i,
            {
                assert(rv.take(i as int).drop_last() =~= rv.take(i - 1));
                assert(rv.take(i as int).last() == roots@[i - 1]@);
                if same(roots[i - 1].name.as_str(), g) {
                    return (true, tree_path(roots[i - 1].dir.as_str(), dir));
                }
                i = i - 1;
            }
            (false, none)
        },
    }
}

fn opt_ref(o: &Option<String>) -> (r: Option<&str>)
    ensures
        opt_str(r) == opt_view(*o),
{
    match o {
        Some(s) => Some(s.as_str()),
        None => None,
    }
}

/// The plan for one tab of a window with the given roots.
pub fn tab_to_plan(roots: &Vec<Root>, t: &Tab) -> (r: TabPlan)
    ensures
        r@ == plan_of(root_views(roots@), t@),
{
    let (tree, tree_path) = derive_tree_meta(roots, opt_ref(&t.group), t.dir.as_str());
    TabPlan {
        spec: TabSpec {
            id: t.key.clone(),
            title: t.title.clone(),
            dir: t.dir.clone(),
            shell: t.shell.clone(),
            startup: copy_opt(&t.startup),
            group: copy_opt(&t.group),
            probe: copy_opt(&t.probe),
            kill: copy_opt(&t.kill),
            tree,
            tree_path,
            split: copy_split(&t.split),
        },
        load_on_open: t.load_on_open,
    }
}

/// The plans for several tabs of a window with the given roots.
pub fn tabs_to_plans(roots: &Vec<Root>, tabs: &Vec<Tab>) -> (r: Vec<TabPlan>)
    ensures
        plan_views(r@) == plans_of(root_views(roots@), tab_views(tabs@)),
{
    let mut out: Vec<TabPlan> = Vec::new();
    let mut i: usize = 0;
    while i < tabs.len()
        invariant
            i <= tabs.len(),
            out.len() == i,
            forall|k: int|
                0 <= k < i ==> #[trigger] out@[k]@ == plan_of(root_views(roots@), tabs@[k]@),
        decreases tabs.len() - i,
    {
        out.push(tab_to_plan(roots, &tabs[i]));
        i = i + 1;
    }
    assert(plan_views(out@) =~= plans_of(root_views(roots@), tab_views(tabs@)));
    out
}

/// The spec of one window under a label that is already chosen.
pub fn window_to_spec(p: &Window, label: String) -> (r: WindowSpec)
    ensures
        r@ == spec_of(p@, label@),
{
    WindowSpec {
        label,
        title: p.title.clone(),
        colour: p.colour.hex(),
        width: p.width,
        height: p.height,
        open_on_start: p.open_on_start,
        tabs: tabs_to_plans(&p.roots, &p.tabs),
    }
}

/// The label that `pairs` give `name`.
pub fn lookup(pairs: &Vec<(String, String)>, name: &str) -> (r: Option<String>)
    ensures
        opt_view(r) == label_of(pair_views(pairs@), name@),
{
    let ghost pv = pair_views(pairs@);
    let mut i: usize = 0;
    assert(pv.skip(0) =~= pv);
    while i < pairs.len()
        invariant
            i <= pairs.len(),
            pv == pair_views(pairs@),
            label_of(pv, name@) == label_of(pv.skip(i as int), name@),
        decreases pairs.len() - i,
    {
        assert(pv.skip(i as int)[0] == (pairs@[i as int].0@, pairs@[i as int].1@));
        assert(pv.skip(i as int).skip(1) =~= pv.skip(i + 1));
        if same(pairs[i].0.as_str(), name) {
            return Some(pairs[i].1.clone());
        }
        i = i + 1;
    }
    None
}

/// The specs of `windows` in order: a window that `live` names keeps that
/// label, every other gets one that is not in `taken`.
fn label_windows(
    windows: &Vec<Window>,
    live: &Vec<(String, String)>,
    taken: Vec<String>,
) -> (r: Vec<WindowSpec>)
    ensures
        spec_views(r@) == labelled(
            window_views(windows@),
            pair_views(live@),
            views(taken@),
        ).specs,
{
    let ghost wv = window_views(windows@);
    let ghost lv = pair_views(live@);
    let ghost tv = views(taken@);
    let mut taken = taken;
    let mut out: Vec<WindowSpec> = Vec::new();
    assert(spec_views(out@) =~= labelled(wv.take(0), lv, tv).specs);
    let mut i: usize = 0;
    while i < windows.len()
        invariant
            i <= windows.len(),
            wv == window_views(windows@),
            lv == pair_views(live@),
            spec_views(out@) == labelled(wv.take(i as int), lv, tv).specs,
            views(taken@) == labelled(wv.take(i as int), lv, tv).taken,
        decreases windows.len() - i,
    {
        let ghost out0 = out@;
        let ghost taken0 = taken@;
        assert(wv.take(i + 1).drop_last() =~= wv.take(i as int));
        assert(wv.take(i + 1).last() == windows@[i as int]@);
        match lookup(live, windows[i].title.as_str()) {
            Some(l) => {
                out.push(window_to_spec(&windows[i], l));
            },
            None => {
                let l: String = unique_label(windows[i].title.as_str(), &taken);
                taken.push(l.clone());
                assert(views(taken@) =~= views(taken0).push(l@));
                out.push(window_to_spec(&windows[i], l));
            },
        }
        assert(spec_views(out@) =~= spec_views(out0).push(out@.last()@));
        i = i + 1;
    }
    assert(wv.take(i as int) =~= wv);
    out
}

fn with_home(labels: &Vec<String>) -> (r: Vec<String>)
    ensures
        views(r@) == views(labels@).push(HOME_LABEL@),
{
    let mut taken: Vec<String> = copy_list(labels);
    let ghost before = taken@;
    taken.push(owned(HOME_LABEL));
    assert(views(taken@) =~= views(before).push(HOME_LABEL@));
    taken
}

/// The specs of a whole configuration, with unique labels in window order.
pub fn window_specs(config: &Config) -> (r: Vec<WindowSpec>)
    ensures
        spec_views(r@) == configured(config@, Seq::empty(), Seq::empty()),
{
    let live: Vec<(String, String)> = Vec::new();
    let labels: Vec<String> = Vec::new();
    assert(pair_views(live@) =~= Seq::empty());
    assert(views(labels@) =~= Seq::empty());
    label_windows(&config.windows, &live, with_home(&labels))
}

/// The specs of a whole configuration: an open window keeps the label it has
/// live, and every closed one gets a label that no live window has.
pub fn configured_specs(
    config: &Config,
    live_names: &Vec<(String, String)>,
    live_labels: &Vec<String>,
) -> (r: Vec<WindowSpec>)
    ensures
        spec_views(r@) == configured(config@, pair_views(live_names@), views(live_labels@)),
{
    label_windows(&config.windows, live_names, with_home(live_labels))
}

/// The menu entries of `specs`, each tagged with whether its window is open.
pub fn window_menu_entries(specs: &Vec<WindowSpec>, open: &Vec<String>) -> (r: Vec<
    WindowMenuEntry,
>)
    ensures
        entry_views(r@) == entries_of(spec_views(specs@), views(open@)),
{
    let mut out: Vec<WindowMenuEntry> = Vec::new();
    let ghost want = entries_of(spec_views(specs@), views(open@));
    let mut i: usize = 0;
    while i < specs.len()
        invariant
            i <= specs.len(),
            out.len() == i,
            want == entries_of(spec_views(specs@), views(open@)),
            forall|k: int| 0 <= k < i ==> #[trigger] out@[k]@ == want[k],
        decreases specs.len() - i,
    {
        assert(spec_views(specs@)[i as int] == specs@[i as int]@);
        out.push(
            WindowMenuEntry {
                label: specs[i].label.clone(),
                title: specs[i].title.clone(),
                open: holds(open, specs[i].label.as_str()),
                colour: specs[i].colour.clone(),
            },
        );
        i = i + 1;
    }
    assert(entry_views(out@) =~= want);
    out
}

/// The most recently closed label that is configured and not open.
pub fn next_reopen_target(
    last_closed: &Vec<String>,
    configured: &Vec<String>,
    open: &Vec<String>,
) -> (r: Option<String>)
    ensures
        opt_view(r) == reopen_target(views(last_closed@), views(configured@), views(open@)),
{
    let ghost cv = views(last_closed@);
    let mut i: usize = last_closed.len();
    assert(cv.take(i as int) =~= cv);
    while i > 0
        invariant
            i <= last_closed.len(),
            cv == views(last_closed@),
            reopen_target(cv, views(configured@), views(open@)) == reopen_target(
                cv.take(i as int),
                views(configured@),
                views(open@),
            ),
        decreases i,
    {
        assert(cv.take(i as int).drop_last() =~= cv.take(i - 1));
        assert(cv.take(i as int).last() == last_closed@[i - 1]@);
        let l: &str = last_closed[i - 1].as_str();
        if holds(configured, l) && !holds(open, l) {
            return Some(last_closed[i - 1].clone());
        }
        i = i - 1;
    }
    None
}

/// The metadata plans of one update.
fn meta_plans(
    roots: &Vec<Root>,
    tabs: &Vec<Tab>,
    metas: &Vec<(String, TabMeta)>,
) -> (r: Vec<MetaPlan>)
    ensures
        meta_plan_views(r@) == meta_views(metas@).map_values(
            |m: (Seq<char>, TabMetaView)|
                meta_plan_of(root_views(roots@), tab_views(tabs@), m),
        ),
{
    let ghost rv = root_views(roots@);
    let ghost tv = tab_views(tabs@);
    let ghost want = meta_views(metas@).map_values(
        |m: (Seq<char>, TabMetaView)| meta_plan_of(rv, tv, m),
    );
    let mut out: Vec<MetaPlan> = Vec::new();
    let mut i: usize = 0;
    while i < metas.len()
        invariant
            i <= metas.len(),
            out.len() == i,
            rv == root_views(roots@),
            tv == tab_views(tabs@),
            want == meta_views(metas@).map_values(
                |m: (Seq<char>, TabMetaView)| meta_plan_of(rv, tv, m),
            ),
            forall|k: int| 0 <= k < i ==> #[trigger] out@[k]@ == want[k],
        decreases metas.len() - i,
    {
        assert(meta_views(metas@)[i as int] == (metas@[i as int].0@, metas@[i as int].1@));
        let (tree, path) = match find_tab(tabs, metas[i].0.as_str()) {
            Some(j) => derive_tree_meta(roots, opt_ref(&metas[i].1.group), tabs[j].dir.as_str()),
            None => {
                let none: Vec<String> = Vec::new();
                assert(views(none@) =~= Seq::empty());
                (false, none)
            },
        };
        out.push(
            MetaPlan {
                id: metas[i].0.clone(),
                meta: metas[i].1.clone(),
                tree,
                tree_path: path,
            },
        );
        i = i + 1;
    }
    assert(meta_plan_views(out@) =~= want);
    out
}

/// The operation for one update of the window labelled `label`.
fn update_to_op(windows: &Vec<Window>, u: &WindowUpdate, label: String) -> (r: WindowOp)
    ensures
        r@ == WindowOpView::Update(update_op(window_views(windows@), u@, label@)),
{
    let no_roots: Vec<Root> = Vec::new();
    let no_tabs: Vec<Tab> = Vec::new();
    assert(root_views(no_roots@) =~= Seq::empty());
    assert(tab_views(no_tabs@) =~= Seq::empty());
    let (roots, tabs) = match find(windows, u.title.as_str()) {
        Some(i) => (&windows[i].roots, &windows[i].tabs),
        None => (&no_roots, &no_tabs),
    };
    WindowOp::Update {
        label,
        colour: match u.colour {
            Some(c) => Some(c.hex()),
            None => None,
        },
        add_tabs: tabs_to_plans(roots, &u.add_tabs),
        remove_tabs: copy_list(&u.remove_tabs),
        order: copy_list(&u.tab_order),
        set_meta: meta_plans(roots, tabs, &u.set_meta),
        respawn_tabs: tabs_to_plans(roots, &u.respawn_tabs),
    }
}

/// Map a reconciliation, which speaks of titles, to operations on labels.
/// Windows that open get labels that are neither in `taken` nor assigned
/// before them.
pub fn reconcile_ops(
    recon: &Reconciliation,
    new_config: &Config,
    name_to_label: &Vec<(String, String)>,
    taken: &Vec<String>,
) -> (r: Vec<WindowOp>)
    ensures
        op_views(r@) == ops_of(
            recon@,
            new_config@,
            pair_views(name_to_label@),
            views(taken@),
        ),
{
    let ghost nv = window_views(new_config.windows@);
    let ghost pv = pair_views(name_to_label@);
    let none: Vec<(String, String)> = Vec::new();
    assert(pair_views(none@) =~= Seq::empty());
    let specs: Vec<WindowSpec> = label_windows(&recon.open, &none, with_home(taken));
    let ghost sv = spec_views(specs@);
    let ghost opens = open_ops(sv);
    let mut ops: Vec<WindowOp> = Vec::new();
    for spec in it: specs.into_iter()
        invariant
            it.seq() == specs@,
            sv == spec_views(specs@),
            opens == open_ops(sv),
            op_views(ops@) == opens.take(it.index() as int),
    {
        let ghost before = ops@;
        assert(sv[it.index() as int] == specs@[it.index() as int]@);
        ops.push(WindowOp::Open(spec));
        assert(op_views(ops@) =~= op_views(before).push(WindowOpView::Open(spec@)));
        assert(op_views(ops@) =~= opens.take(it.index() + 1));
    }
    assert(op_views(ops@) =~= opens);
    let ghost names = views(recon.close@);
    assert(names.take(0) =~= Seq::empty());
    assert(opens + close_ops(names.take(0), pv) =~= opens);
    let mut i: usize = 0;
    while i < recon.close.len()
        invariant
            i <= recon.close.len(),
            names == views(recon.close@),
            pv == pair_views(name_to_label@),
            op_views(ops@) == opens + close_ops(names.take(i as int), pv),
        decreases recon.close.len() - i,
    {
        let ghost before = ops@;
        assert(names.take(i + 1).drop_last() =~= names.take(i as int));
        assert(names.take(i + 1).last() == recon.close@[i as int]@);
        match lookup(name_to_label, recon.close[i].as_str()) {
            Some(l) => {
                ops.push(WindowOp::Close(l));
                assert(op_views(ops@) =~= op_views(before).push(WindowOpView::Close(l@)));
            },
            None => {},
        }
        i = i + 1;
        assert(op_views(ops@) =~= opens + close_ops(names.take(i as int), pv));
    }
    assert(names.take(i as int) =~= names);
    let ghost base = opens + close_ops(names, pv);
    let ghost uv = update_views(recon.update@);
    assert(uv.take(0) =~= Seq::empty());
    assert(base + update_ops(nv, uv.take(0), pv) =~= base);
    let mut j: usize = 0;
    while j < recon.update.len()
        invariant
            j <= recon.update.len(),
            uv == update_views(recon.update@),
            nv == window_views(new_config.windows@),
            pv == pair_views(name_to_label@),
            op_views(ops@) == base + update_ops(nv, uv.take(j as int), pv),
        decreases recon.update.len() - j,
    {
        let ghost before = ops@;
        assert(uv.take(j + 1).drop_last() =~= uv.take(j as int));
        assert(uv.take(j + 1).last() == recon.update@[j as int]@);
        match lookup(name_to_label, recon.update[j].title.as_str()) {
            Some(l) => {
                let op: WindowOp = update_to_op(&new_config.windows, &recon.update[j], l);
                ops.push(op);
                assert(op_views(ops@) =~= op_views(before).push(op@));
            },
            None => {},
        }
        j = j + 1;
        assert(op_views(ops@) =~= base + update_ops(nv, uv.take(j as int), pv));
    }
    assert(uv.take(j as int) =~= uv);
    ops
}

} // verus!
