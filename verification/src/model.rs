//! The resolved configuration: windows, their tabs and their project roots.

use crate::colour::Colour;
use crate::text::{copy_opt, opt_view, same_opt};
use vstd::prelude::*;

verus! {

/// UI density: a whole-app presentation mode that scales the chrome's type and
/// spacing as a unit.
#[derive(Debug, Clone, Copy, PartialEq, Eq, Structural)]
pub enum Density {
    /// The standard sizing.
    Comfortable,
    /// Proportionally condensed type and spacing.
    Compact,
}

impl Default for Density {
    fn default() -> (r: Self)
        ensures
            r == Density::Comfortable,
    {
        Density::Comfortable
    }
}

impl Density {
    /// The token of the chrome's `data-density` attribute.
    pub open spec fn token(self) -> Seq<char> {
        match self {
            Density::Comfortable => "comfortable"@,
            Density::Compact => "compact"@,
        }
    }

    /// The token the chrome's `data-density` attribute uses.
    pub fn as_str(self) -> (r: &'static str)
        ensures
            r@ == self.token(),
    {
        match self {
            Density::Comfortable => "comfortable",
            Density::Compact => "compact",
        }
    }
}

/// What the digit chords do in the app menu.
#[derive(Debug, Clone, Copy, PartialEq, Eq, Structural)]
pub enum TabDigitKeys {
    /// Every digit jumps straight to the tab at that position.
    Jump,
    /// The first two digits cycle to the next and the previous tab; the others
    /// still jump.
    Cycle,
}

impl Default for TabDigitKeys {
    fn default() -> (r: Self)
        ensures
            r == TabDigitKeys::Jump,
    {
        TabDigitKeys::Jump
    }
}

impl TabDigitKeys {
    /// Whether the first two digit chords cycle.
    pub fn is_cycle(self) -> (r: bool)
        ensures
            r == (self == TabDigitKeys::Cycle),
    {
        match self {
            TabDigitKeys::Cycle => true,
            TabDigitKeys::Jump => false,
        }
    }
}

/// The side of a tab that its second pane takes.
#[derive(Debug, Clone, Copy, PartialEq, Eq, Structural)]
pub enum SplitSide {
    Left,
    Right,
}

/// A second pane that the configuration declares for a tab.
#[derive(Debug, PartialEq)]
pub struct Split {
    pub side: SplitSide,
    /// The fraction of the width that the second pane takes, as the bit
    /// pattern of a double.
    pub size: u64,
    /// The command typed into the second pane's shell, if any.
    pub startup: Option<String>,
}

pub ghost struct SplitView {
    pub side: SplitSide,
    pub size: u64,
    pub startup: Option<Seq<char>>,
}

impl View for Split {
    type V = SplitView;

    open spec fn view(&self) -> SplitView {
        SplitView { side: self.side, size: self.size, startup: opt_view(self.startup) }
    }
}

impl Clone for Split {
    fn clone(&self) -> (r: Self)
        ensures
            r@ == self@,
    {
        Split { side: self.side, size: self.size, startup: copy_opt(&self.startup) }
    }
}

/// The declared split of a tab, seen through its view.
pub open spec fn split_view(s: Option<Split>) -> Option<SplitView> {
    match s {
        Some(x) => Some(x@),
        None => None,
    }
}

/// A copy of a declared split.
pub fn copy_split(s: &Option<Split>) -> (r: Option<Split>)
    ensures
        split_view(r) == split_view(*s),
{
    match s {
        Some(x) => Some(x.clone()),
        None => None,
    }
}

/// Whether two declared splits are equal.
pub fn same_split(a: &Option<Split>, b: &Option<Split>) -> (r: bool)
    ensures
        r == (split_view(*a) == split_view(*b)),
{
    match (a, b) {
        (Some(x), Some(y)) => x.side == y.side && x.size == y.size && same_opt(
            &x.startup,
            &y.startup,
        ),
        (None, None) => true,
        _ => false,
    }
}

/// A project terminal of a window.
#[derive(Debug, PartialEq)]
pub struct Tab {
    /// The explicit identity, where the configuration gives one.
    pub id: Option<String>,
    /// What tells the tab apart from the others of its window: its `id`, or
    /// else its directory.
    pub key: String,
    /// The display label.
    pub title: String,
    /// The directory the terminal opens in.
    pub dir: String,
    /// The shell to spawn.
    pub shell: String,
    /// The command typed into the shell once it runs, if any.
    pub startup: Option<String>,
    /// Whether the terminal is spawned as soon as the window opens.
    pub load_on_open: bool,
    /// The name of the sidebar section, or `None` for a loose tab.
    pub group: Option<String>,
    /// The session-presence probe command, if any.
    pub probe: Option<String>,
    /// The session-kill command, if any.
    pub kill: Option<String>,
    /// The declared second pane, if any.
    pub split: Option<Split>,
}

pub ghost struct TabView {
    pub id: Option<Seq<char>>,
    pub key: Seq<char>,
    pub title: Seq<char>,
    pub dir: Seq<char>,
    pub shell: Seq<char>,
    pub startup: Option<Seq<char>>,
    pub load_on_open: bool,
    pub group: Option<Seq<char>>,
    pub probe: Option<Seq<char>>,
    pub kill: Option<Seq<char>>,
    pub split: Option<SplitView>,
}

impl View for Tab {
    type V = TabView;

    open spec fn view(&self) -> TabView {
        TabView {
            id: opt_view(self.id),
            key: self.key@,
            title: self.title@,
            dir: self.dir@,
            shell: self.shell@,
            startup: opt_view(self.startup),
            load_on_open: self.load_on_open,
            group: opt_view(self.group),
            probe: opt_view(self.probe),
            kill: opt_view(self.kill),
            split: split_view(self.split),
        }
    }
}

impl Clone for Tab {
    fn clone(&self) -> (r: Self)
        ensures
            r@ == self@,
    {
        Tab {
            id: copy_opt(&self.id),
            key: self.key.clone(),
            title: self.title.clone(),
            dir: self.dir.clone(),
            shell: self.shell.clone(),
            startup: copy_opt(&self.startup),
            load_on_open: self.load_on_open,
            group: copy_opt(&self.group),
            probe: copy_opt(&self.probe),
            kill: copy_opt(&self.kill),
            split: copy_split(&self.split),
        }
    }
}

/// The views of a sequence of tabs.
pub open spec fn tab_views(s: Seq<Tab>) -> Seq<TabView> {
    s.map_values(|t: Tab| t@)
}

/// A copy of a list of tabs.
pub fn copy_tabs(v: &Vec<Tab>) -> (r: Vec<Tab>)
    ensures
        tab_views(r@) == tab_views(v@),
{
    let mut out: Vec<Tab> = Vec::new();
    let mut i: usize = 0;
    while i < v.len()
        invariant
            i <= v.len(),
            out.len() == i,
            forall|k: int| 0 <= k < i ==> #[trigger] out@[k]@ == v@[k]@,
        decreases v.len() - i,
    {
        out.push(v[i].clone());
        i = i + 1;
    }
    assert(tab_views(out@) =~= tab_views(v@));
    out
}

/// A directory whose repositories become tabs of the window.
#[derive(Debug, PartialEq)]
pub struct Root {
    /// The name of the sidebar section.
    pub name: String,
    pub dir: String,
    /// How deep to look for repositories.
    pub depth: u32,
    pub shell: String,
    pub startup: Option<String>,
    pub probe: Option<String>,
    pub kill: Option<String>,
    pub split: Option<Split>,
}

pub ghost struct RootView {
    pub name: Seq<char>,
    pub dir: Seq<char>,
    pub depth: u32,
    pub shell: Seq<char>,
    pub startup: Option<Seq<char>>,
    pub probe: Option<Seq<char>>,
    pub kill: Option<Seq<char>>,
    pub split: Option<SplitView>,
}

impl View for Root {
    type V = RootView;

    open spec fn view(&self) -> RootView {
        RootView {
            name: self.name@,
            dir: self.dir@,
            depth: self.depth,
            shell: self.shell@,
            startup: opt_view(self.startup),
            probe: opt_view(self.probe),
            kill: opt_view(self.kill),
            split: split_view(self.split),
        }
    }
}

impl Clone for Root {
    fn clone(&self) -> (r: Self)
        ensures
            r@ == self@,
    {
        Root {
            name: self.name.clone(),
            dir: self.dir.clone(),
            depth: self.depth,
            shell: self.shell.clone(),
            startup: copy_opt(&self.startup),
            probe: copy_opt(&self.probe),
            kill: copy_opt(&self.kill),
            split: copy_split(&self.split),
        }
    }
}

/// The views of a sequence of roots.
pub open spec fn root_views(s: Seq<Root>) -> Seq<RootView> {
    s.map_values(|t: Root| t@)
}

/// A copy of a list of roots.
pub fn copy_roots(v: &Vec<Root>) -> (r: Vec<Root>)
    ensures
        root_views(r@) == root_views(v@),
{
    let mut out: Vec<Root> = Vec::new();
    let mut i: usize = 0;
    while i < v.len()
        invariant
            i <= v.len(),
            out.len() == i,
            forall|k: int| 0 <= k < i ==> #[trigger] out@[k]@ == v@[k]@,
        decreases v.len() - i,
    {
        out.push(v[i].clone());
        i = i + 1;
    }
    assert(root_views(out@) =~= root_views(v@));
    out
}

/// A native window and what it holds.
#[derive(Debug, PartialEq)]
pub struct Window {
    pub title: String,
    pub colour: Colour,
    pub width: u32,
    pub height: u32,
    /// Whether the window is materialized at launch.
    pub open_on_start: bool,
    pub tabs: Vec<Tab>,
    pub roots: Vec<Root>,
}

#[verifier::ext_equal]
pub ghost struct WindowView {
    pub title: Seq<char>,
    pub colour: Colour,
    pub width: u32,
    pub height: u32,
    pub open_on_start: bool,
    pub tabs: Seq<TabView>,
    pub roots: Seq<RootView>,
}

impl View for Window {
    type V = WindowView;

    open spec fn view(&self) -> WindowView {
        WindowView {
            title: self.title@,
            colour: self.colour,
            width: self.width,
            height: self.height,
            open_on_start: self.open_on_start,
            tabs: tab_views(self.tabs@),
            roots: root_views(self.roots@),
        }
    }
}

impl Clone for Window {
    fn clone(&self) -> (r: Self)
        ensures
            r@ == self@,
    {
        Window {
            title: self.title.clone(),
            colour: self.colour,
            width: self.width,
            height: self.height,
            open_on_start: self.open_on_start,
            tabs: copy_tabs(&self.tabs),
            roots: copy_roots(&self.roots),
        }
    }
}

/// The views of a sequence of windows.
pub open spec fn window_views(s: Seq<Window>) -> Seq<WindowView> {
    s.map_values(|t: Window| t@)
}

/// A copy of a list of windows.
pub fn copy_windows(v: &Vec<Window>) -> (r: Vec<Window>)
    ensures
        window_views(r@) == window_views(v@),
{
    let mut out: Vec<Window> = Vec::new();
    let mut i: usize = 0;
    while i < v.len()
        invariant
            i <= v.len(),
            out.len() == i,
            forall|k: int| 0 <= k < i ==> #[trigger] out@[k]@ == v@[k]@,
        decreases v.len() - i,
    {
        out.push(v[i].clone());
        i = i + 1;
    }
    assert(window_views(out@) =~= window_views(v@));
    out
}

/// A resolved configuration.
#[derive(Debug, PartialEq)]
pub struct Config {
    pub windows: Vec<Window>,
    /// Whether the file is rewritten formatted on each clean reload.
    pub format_on_save: bool,
    /// What the digit chords do in the app menu.
    pub tab_digit_keys: TabDigitKeys,
    /// Seconds between settled probe passes; zero means none.
    pub probe_interval: u64,
    /// The chrome sizing mode.
    pub density: Density,
    /// Whether the sidebar doubles as a window-move handle.
    pub sidebar_drag: bool,
    /// Whether new releases are looked for.
    pub auto_update: bool,
    /// Whether the notification path is traced.
    pub notify_debug: bool,
}

#[verifier::ext_equal]
pub ghost struct ConfigView {
    pub windows: Seq<WindowView>,
    pub format_on_save: bool,
    pub tab_digit_keys: TabDigitKeys,
    pub probe_interval: u64,
    pub density: Density,
    pub sidebar_drag: bool,
    pub auto_update: bool,
    pub notify_debug: bool,
}

impl View for Config {
    type V = ConfigView;

    open spec fn view(&self) -> ConfigView {
        ConfigView {
            windows: window_views(self.windows@),
            format_on_save: self.format_on_save,
            tab_digit_keys: self.tab_digit_keys,
            probe_interval: self.probe_interval,
            density: self.density,
            sidebar_drag: self.sidebar_drag,
            auto_update: self.auto_update,
            notify_debug: self.notify_debug,
        }
    }
}

impl Clone for Config {
    fn clone(&self) -> (r: Self)
        ensures
            r@ == self@,
    {
        Config {
            windows: copy_windows(&self.windows),
            format_on_save: self.format_on_save,
            tab_digit_keys: self.tab_digit_keys,
            probe_interval: self.probe_interval,
            density: self.density,
            sidebar_drag: self.sidebar_drag,
            auto_update: self.auto_update,
            notify_debug: self.notify_debug,
        }
    }
}

/// A remark on a configuration that is valid all the same.
#[derive(Debug, PartialEq)]
pub struct Warning {
    pub window: String,
    pub message: String,
}

pub ghost struct WarningView {
    pub window: Seq<char>,
    pub message: Seq<char>,
}

impl View for Warning {
    type V = WarningView;

    open spec fn view(&self) -> WarningView {
        WarningView { window: self.window@, message: self.message@ }
    }
}

/// The views of a sequence of warnings.
pub open spec fn warning_views(s: Seq<Warning>) -> Seq<WarningView> {
    s.map_values(|t: Warning| t@)
}

} // verus!
