//! The rows of the application menu.

use crate::model::TabDigitKeys;
use crate::plan::{WindowMenuEntry, WindowMenuEntryView};
use vstd::prelude::*;

verus! {

/// A row of the Tab menu.
#[derive(Debug, Clone, Copy, PartialEq, Eq, Structural)]
pub enum TabMenuItem {
    /// The previous loaded tab.
    Previous,
    /// The next loaded tab.
    Next,
    /// The next loaded tab, on the digit one.
    CycleNext,
    /// The previous loaded tab, on the digit two.
    CyclePrevious,
    Separator,
    Split,
    CloseTab,
    PopOutTab,
    /// The tab at a position, on the digit of that position.
    Jump(u8),
}

/// The first digit that jumps to a tab: cycling takes the first two.
pub open spec fn first_jump(mode: TabDigitKeys) -> int {
    match mode {
        TabDigitKeys::Jump => 1,
        TabDigitKeys::Cycle => 3,
    }
}

/// The rows that step from tab to tab.
pub open spec fn nav_rows(mode: TabDigitKeys) -> Seq<TabMenuItem> {
    match mode {
        TabDigitKeys::Jump => seq![TabMenuItem::Previous, TabMenuItem::Next],
        TabDigitKeys::Cycle => seq![
            TabMenuItem::Previous,
            TabMenuItem::Next,
            TabMenuItem::CycleNext,
            TabMenuItem::CyclePrevious,
        ],
    }
}

/// The rows that jump to a position, up to nine.
pub open spec fn jump_rows(mode: TabDigitKeys) -> Seq<TabMenuItem> {
    Seq::new(
        (10 - first_jump(mode)) as nat,
        |i: int| TabMenuItem::Jump((first_jump(mode) + i) as u8),
    )
}

/// The rows of the Tab menu: stepping, then what is done to a tab, then the
/// jumps.
pub open spec fn tab_rows(mode: TabDigitKeys) -> Seq<TabMenuItem> {
    nav_rows(mode) + seq![
        TabMenuItem::Separator,
        TabMenuItem::Split,
        TabMenuItem::CloseTab,
        TabMenuItem::PopOutTab,
        TabMenuItem::Separator,
    ] + jump_rows(mode)
}

/// The rows of the Tab menu.
pub fn tab_menu(mode: TabDigitKeys) -> (r: Vec<TabMenuItem>)
    ensures
        r@ == tab_rows(mode),
{
    let mut out: Vec<TabMenuItem> = Vec::new();
    out.push(TabMenuItem::Previous);
    out.push(TabMenuItem::Next);
    if mode.is_cycle() {
        out.push(TabMenuItem::CycleNext);
        out.push(TabMenuItem::CyclePrevious);
    }
    assert(out@ =~= nav_rows(mode));
    out.push(TabMenuItem::Separator);
    out.push(TabMenuItem::Split);
    out.push(TabMenuItem::CloseTab);
    out.push(TabMenuItem::PopOutTab);
    out.push(TabMenuItem::Separator);
    let ghost head = out@;
    let first: u8 = if mode.is_cycle() {
        3
    } else {
        1
    };
    let mut n: u8 = first;
    assert(out@ =~= head + jump_rows(mode).take(0));
    while n <= 9
        invariant
            first == first_jump(mode),
            first <= n <= 10,
            out@ == head + jump_rows(mode).take(n - first),
        decreases 10 - n,
    {
        out.push(TabMenuItem::Jump(n));
        assert(jump_rows(mode).take(n + 1 - first) =~= jump_rows(mode).take(n - first).push(
            TabMenuItem::Jump(n),
        ));
        assert(out@ =~= head + jump_rows(mode).take(n + 1 - first));
        n = n + 1;
    }
    assert(jump_rows(mode).take(n - first) =~= jump_rows(mode));
    assert(out@ =~= tab_rows(mode));
    out
}

/// A row of the Window menu.
#[derive(Debug)]
pub enum WindowMenuItem {
    /// Reopen the window that was closed last; enabled where there is one.
    ReopenLast { enabled: bool },
    Separator,
    /// Raise or reopen a window.
    Window(WindowMenuEntry),
}

pub ghost enum WindowMenuItemView {
    ReopenLast { enabled: bool },
    Separator,
    Window(WindowMenuEntryView),
}

impl View for WindowMenuItem {
    type V = WindowMenuItemView;

    open spec fn view(&self) -> WindowMenuItemView {
        match self {
            WindowMenuItem::ReopenLast { enabled } => WindowMenuItemView::ReopenLast {
                enabled: *enabled,
            },
            WindowMenuItem::Separator => WindowMenuItemView::Separator,
            WindowMenuItem::Window(e) => WindowMenuItemView::Window(e@),
        }
    }
}

/// The rows of the Window menu: the last closed window on top, then a row for
/// each configured window.
pub open spec fn window_rows(entries: Seq<WindowMenuEntryView>, reopen_available: bool) -> Seq<
    WindowMenuItemView,
> {
    seq![
        WindowMenuItemView::ReopenLast { enabled: reopen_available },
        WindowMenuItemView::Separator,
    ] + entries.map_values(|e: WindowMenuEntryView| WindowMenuItemView::Window(e))
}

/// The rows of the Window menu.
pub fn window_menu(entries: Vec<WindowMenuEntry>, reopen_available: bool) -> (r: Vec<
    WindowMenuItem,
>)
    ensures
        r@.map_values(|m: WindowMenuItem| m@) == window_rows(
            entries@.map_values(|e: WindowMenuEntry| e@),
            reopen_available,
        ),
{
    let ghost ev = entries@.map_values(|e: WindowMenuEntry| e@);
    let ghost want = window_rows(ev, reopen_available);
    let mut out: Vec<WindowMenuItem> = Vec::new();
    out.push(WindowMenuItem::ReopenLast { enabled: reopen_available });
    out.push(WindowMenuItem::Separator);
    for e in it: entries.into_iter()
        invariant
            ev == it.seq().map_values(|e: WindowMenuEntry| e@),
            want == window_rows(ev, reopen_available),
            out.len() == it.index() + 2,
            forall|k: int| 0 <= k < out.len() ==> (#[trigger] out@[k])@ == want[k],
    {
        assert(e@ == ev[it.index() as int]);
        out.push(WindowMenuItem::Window(e));
    }
    assert(out@.map_values(|m: WindowMenuItem| m@) =~= want);
    out
}

/// What a chosen row of the Tab menu asks of the focused window.
#[derive(Debug, Clone, Copy, PartialEq, Eq, Structural)]
pub enum TabRequest {
    /// Step this way through the loaded tabs.
    Cycle(i8),
    /// Show the tab at this position.
    Select(u8),
    /// Split the shown tab.
    Split,
    /// Unload the shown tab; the window stays.
    Unload,
    /// Pop the shown tab out.
    PopOut,
}

/// What a chosen row asks for. The digits of the cycling mode ask for the same
/// steps as the rows they stand for.
pub fn tab_request(item: TabMenuItem) -> (r: Option<TabRequest>)
    ensures
        r == (match item {
            TabMenuItem::Previous | TabMenuItem::CyclePrevious => Some(TabRequest::Cycle(-1i8)),
            TabMenuItem::Next | TabMenuItem::CycleNext => Some(TabRequest::Cycle(1)),
            TabMenuItem::Separator => None,
            TabMenuItem::Split => Some(TabRequest::Split),
            TabMenuItem::CloseTab => Some(TabRequest::Unload),
            TabMenuItem::PopOutTab => Some(TabRequest::PopOut),
            TabMenuItem::Jump(n) => Some(TabRequest::Select(n)),
        }),
{
    match item {
        TabMenuItem::Previous => Some(TabRequest::Cycle(-1)),
        TabMenuItem::CyclePrevious => Some(TabRequest::Cycle(-1)),
        TabMenuItem::Next => Some(TabRequest::Cycle(1)),
        TabMenuItem::CycleNext => Some(TabRequest::Cycle(1)),
        TabMenuItem::Separator => None,
        TabMenuItem::Split => Some(TabRequest::Split),
        TabMenuItem::CloseTab => Some(TabRequest::Unload),
        TabMenuItem::PopOutTab => Some(TabRequest::PopOut),
        TabMenuItem::Jump(n) => Some(TabRequest::Select(n)),
    }
}

/// The digits that are not taken by going to the next and the previous tab jump
/// to the tab of that number, each once and in order: all nine of them in one
/// mode, and those from the third on in the other.
pub proof fn law_free_digits_jump(mode: TabDigitKeys, n: u8)
    ensures
        tab_rows(mode).contains(TabMenuItem::Jump(n)) <==> n <= 9 && match mode {
            TabDigitKeys::Jump => n >= 1,
            TabDigitKeys::Cycle => n >= 3,
        },
        tab_rows(mode).contains(TabMenuItem::CycleNext) <==> mode == TabDigitKeys::Cycle,
        tab_rows(mode).contains(TabMenuItem::CyclePrevious) <==> mode == TabDigitKeys::Cycle,
        tab_rows(mode).contains(TabMenuItem::Previous),
        tab_rows(mode).contains(TabMenuItem::Next),
        tab_rows(mode).contains(TabMenuItem::Split),
        tab_rows(mode).contains(TabMenuItem::CloseTab),
        tab_rows(mode).contains(TabMenuItem::PopOutTab),
        tab_rows(mode).last() == TabMenuItem::Jump(9),
{
    let nav = nav_rows(mode);
    let acts = seq![
        TabMenuItem::Separator,
        TabMenuItem::Split,
        TabMenuItem::CloseTab,
        TabMenuItem::PopOutTab,
        TabMenuItem::Separator,
    ];
    let jumps = jump_rows(mode);
    let all = tab_rows(mode);
    let k = nav.len() as int;
    assert(all =~= nav + acts + jumps);
    assert(all[0] == TabMenuItem::Previous && all[1] == TabMenuItem::Next);
    assert(all[k + 1] == TabMenuItem::Split);
    assert(all[k + 2] == TabMenuItem::CloseTab);
    assert(all[k + 3] == TabMenuItem::PopOutTab);
    if mode == TabDigitKeys::Cycle {
        assert(all[2] == TabMenuItem::CycleNext && all[3] == TabMenuItem::CyclePrevious);
    }
    if first_jump(mode) <= n <= 9 {
        assert(all[k + 5 + (n - first_jump(mode))] == TabMenuItem::Jump(n));
    }
    assert forall|i: int| 0 <= i < all.len() implies {
        ||| i < k && #[trigger] all[i] == nav[i]
        ||| k <= i < k + 5 && all[i] == acts[i - k]
        ||| k + 5 <= i && all[i] == TabMenuItem::Jump((first_jump(mode) + (i - k - 5)) as u8)
    } by {}
}

/// The window menu offers the last closed window first, where there is one to
/// reopen, and then every window in the order it is given.
pub proof fn law_the_window_menu_keeps_the_order(
    entries: Seq<WindowMenuEntryView>,
    reopen: bool,
    k: int,
)
    requires
        0 <= k < entries.len(),
    ensures
        window_rows(entries, reopen).len() == entries.len() + 2,
        window_rows(entries, reopen)[0] == (WindowMenuItemView::ReopenLast { enabled: reopen }),
        window_rows(entries, reopen)[k + 2] == WindowMenuItemView::Window(entries[k]),
{
}

} // verus!
