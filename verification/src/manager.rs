//! The live windows and the popped-out tabs: who they are, what the chrome is
//! told of them, and which of them a terminal belongs to.
//!
//! What is to be done on screen is queued in the manager's outbox, in order,
//! for the caller to carry out.

use crate::model::{Config, ConfigView, Density, TabDigitKeys};
use crate::plan::{
    configured, configured_specs, entries_of, entry_views, next_reopen_target, pair_views,
    reopen_target, spec_views, window_menu_entries, WindowMenuEntry, WindowMenuEntryView,
    WindowSpec, WindowSpecView,
};
use crate::presence::{known_of, patched, Presence, PresenceCache};
use crate::registry::{
    cmd_views, dirs_of, dto_views, dtos_of, located, rank, rank_from, target_views, targets_of, PaneIdx,
    PixelRect, ProbeTarget, ProbeTargetView, Registry, RegistryView, SurfaceCmd, SurfaceCmdView,
    TabDto, TabDtoView,
};
use crate::resolve::all_looked_up;
use crate::text::{copy_opt, opt_str, opt_view, owned, same, views};
use vstd::prelude::*;

verus! {

/// The rectangle of a terminal before the chrome reports one: to the right of
/// the sidebar. Coordinates are bit patterns of floating-point numbers.
pub open spec fn first_rect() -> PixelRect {
    PixelRect {
        x: 0x4064000000000000,
        y: 0,
        width: 0x4087200000000000,
        height: 0x4082c00000000000,
    }
}

/// The rectangle of a terminal before the chrome reports one.
pub fn initial_rect() -> (r: PixelRect)
    ensures
        r == first_rect(),
{
    PixelRect {
        x: 0x4064000000000000,
        y: 0,
        width: 0x4087200000000000,
        height: 0x4082c00000000000,
    }
}

/// What the chrome of a window is told of it.
#[derive(Debug, Clone, PartialEq)]
pub struct InitDto {
    pub label: String,
    pub title: String,
    pub colour: String,
    pub density: String,
    pub sidebar_drag: bool,
    pub auto_update: bool,
    pub tabs: Vec<TabDto>,
    /// Why terminals could not be spawned when the window was built.
    pub error: Option<String>,
}

#[verifier::ext_equal]
pub ghost struct InitDtoView {
    pub label: Seq<char>,
    pub title: Seq<char>,
    pub colour: Seq<char>,
    pub density: Seq<char>,
    pub sidebar_drag: bool,
    pub auto_update: bool,
    pub tabs: Seq<TabDtoView>,
    pub error: Option<Seq<char>>,
}

impl View for InitDto {
    type V = InitDtoView;

    open spec fn view(&self) -> InitDtoView {
        InitDtoView {
            label: self.label@,
            title: self.title@,
            colour: self.colour@,
            density: self.density@,
            sidebar_drag: self.sidebar_drag,
            auto_update: self.auto_update,
            tabs: dto_views(self.tabs@),
            error: opt_view(self.error),
        }
    }
}

/// What is to be done on screen.
#[derive(Debug, PartialEq)]
pub enum Effect {
    /// Close a window.
    CloseWindow(String),
    /// Raise a window.
    FocusWindow(String),
    /// Tell a surface something.
    Surface(SurfaceCmd),
    /// Move a surface into a window.
    Reparent { surface: usize, into: String },
    /// Give the chrome of a window a new snapshot.
    Refresh(InitDto),
    /// Tell the chrome that a tab lost its terminal, and which is shown now.
    TabExited { label: String, id: String, new_active: Option<String> },
    /// Tell the chrome that a tab lost its second pane.
    PaneClosed { label: String, id: String },
    /// Tell the chrome which pane of a tab has the keyboard.
    PaneFocused { label: String, id: String, pane: usize },
    /// Lay a popped-out window out with one hole.
    OneHole(String),
    /// Mark the hole of a popped-out window that has the keyboard.
    FocusHole { label: String, pane: usize },
    /// Show an error in one window, or in all.
    Error { window: Option<String>, message: String },
    /// Take down the error that all windows show.
    ErrorClear,
}

pub ghost enum EffectView {
    CloseWindow(Seq<char>),
    FocusWindow(Seq<char>),
    Surface(SurfaceCmdView),
    Reparent { surface: usize, into: Seq<char> },
    Refresh(InitDtoView),
    TabExited { label: Seq<char>, id: Seq<char>, new_active: Option<Seq<char>> },
    PaneClosed { label: Seq<char>, id: Seq<char> },
    PaneFocused { label: Seq<char>, id: Seq<char>, pane: usize },
    OneHole(Seq<char>),
    FocusHole { label: Seq<char>, pane: usize },
    Error { window: Option<Seq<char>>, message: Seq<char> },
    ErrorClear,
}

impl View for Effect {
    type V = EffectView;

    open spec fn view(&self) -> EffectView {
        match self {
            Effect::CloseWindow(l) => EffectView::CloseWindow(l@),
            Effect::FocusWindow(l) => EffectView::FocusWindow(l@),
            Effect::Surface(c) => EffectView::Surface(c@),
            Effect::Reparent { surface, into } => EffectView::Reparent {
                surface: *surface,
                into: into@,
            },
            Effect::Refresh(d) => EffectView::Refresh(d@),
            Effect::TabExited { label, id, new_active } => EffectView::TabExited {
                label: label@,
                id: id@,
                new_active: opt_view(*new_active),
            },
            Effect::PaneClosed { label, id } => EffectView::PaneClosed { label: label@, id: id@ },
            Effect::PaneFocused { label, id, pane } => EffectView::PaneFocused {
                label: label@,
                id: id@,
                pane: *pane,
            },
            Effect::OneHole(l) => EffectView::OneHole(l@),
            Effect::FocusHole { label, pane } => EffectView::FocusHole {
                label: label@,
                pane: *pane,
            },
            Effect::Error { window, message } => EffectView::Error {
                window: opt_view(*window),
                message: message@,
            },
            Effect::ErrorClear => EffectView::ErrorClear,
        }
    }
}

/// The views of a sequence of effects.
pub open spec fn effect_views(s: Seq<Effect>) -> Seq<EffectView> {
    s.map_values(|e: Effect| e@)
}

/// Commands to surfaces, as effects.
pub open spec fn surface_effects(cmds: Seq<SurfaceCmdView>) -> Seq<EffectView> {
    cmds.map_values(|c: SurfaceCmdView| EffectView::Surface(c))
}

/// A live window.
pub struct WindowState {
    pub label: String,
    pub title: String,
    pub colour: String,
    /// Why terminals could not be spawned when the window was built.
    pub spawn_error: Option<String>,
    pub registry: Registry,
}

#[verifier::ext_equal]
pub ghost struct WindowStateView {
    pub label: Seq<char>,
    pub title: Seq<char>,
    pub colour: Seq<char>,
    pub spawn_error: Option<Seq<char>>,
    pub registry: RegistryView,
}

impl View for WindowState {
    type V = WindowStateView;

    open spec fn view(&self) -> WindowStateView {
        WindowStateView {
            label: self.label@,
            title: self.title@,
            colour: self.colour@,
            spawn_error: opt_view(self.spawn_error),
            registry: self.registry@,
        }
    }
}

/// The views of a sequence of windows.
pub open spec fn state_views(s: Seq<WindowState>) -> Seq<WindowStateView> {
    s.map_values(|w: WindowState| w@)
}

/// The labels of a sequence of windows.
pub open spec fn labels_of(ws: Seq<WindowStateView>) -> Seq<Seq<char>> {
    ws.map_values(|w: WindowStateView| w.label)
}

/// A tab that is popped out: the window it is in, its surfaces, and the window
/// and tab they go back to.
#[derive(Debug, PartialEq)]
pub struct DetachedSurface {
    pub label: String,
    pub surface: usize,
    /// The surface of the second pane, where the tab had one.
    pub secondary: Option<usize>,
    pub origin_label: String,
    pub tab_id: String,
}

pub ghost struct DetachedView {
    pub label: Seq<char>,
    pub surface: usize,
    pub secondary: Option<usize>,
    pub origin_label: Seq<char>,
    pub tab_id: Seq<char>,
}

impl View for DetachedSurface {
    type V = DetachedView;

    open spec fn view(&self) -> DetachedView {
        DetachedView {
            label: self.label@,
            surface: self.surface,
            secondary: self.secondary,
            origin_label: self.origin_label@,
            tab_id: self.tab_id@,
        }
    }
}

/// The views of a sequence of popped-out tabs.
pub open spec fn detached_views(s: Seq<DetachedSurface>) -> Seq<DetachedView> {
    s.map_values(|d: DetachedSurface| d@)
}

/// The labels of a sequence of popped-out tabs.
pub open spec fn detached_labels(ds: Seq<DetachedView>) -> Seq<Seq<char>> {
    ds.map_values(|d: DetachedView| d.label)
}

/// Everything that is live.
pub struct WindowManager {
    pub windows: Vec<WindowState>,
    /// The label of each live window, by title.
    pub names: Vec<(String, String)>,
    /// The last configuration that loaded, with its projects as tabs.
    pub last_good: Config,
    /// The same as it was written, without them.
    pub raw_config: Config,
    /// Why the last load failed, if it did.
    pub load_error: Option<String>,
    /// How often sessions are looked at, in seconds; never, for zero.
    pub probe_interval: u64,
    pub presence_cache: PresenceCache,
    /// The labels of closed windows, the last closed one last.
    pub last_closed: Vec<String>,
    /// The popped-out tabs. They are not windows: a reload does not see them.
    pub detached: Vec<DetachedSurface>,
    /// Whether the application is on its way out.
    pub quitting: bool,
    /// What is still to be done on screen.
    pub outbox: Vec<Effect>,
}

#[verifier::ext_equal]
pub ghost struct ManagerView {
    pub windows: Seq<WindowStateView>,
    pub names: Seq<(Seq<char>, Seq<char>)>,
    pub last_good: ConfigView,
    pub raw_config: ConfigView,
    pub load_error: Option<Seq<char>>,
    pub probe_interval: u64,
    pub presence: Map<Seq<char>, Map<Seq<char>, Presence>>,
    pub last_closed: Seq<Seq<char>>,
    pub detached: Seq<DetachedView>,
    pub quitting: bool,
    pub outbox: Seq<EffectView>,
}

impl View for WindowManager {
    type V = ManagerView;

    open spec fn view(&self) -> ManagerView {
        ManagerView {
            windows: state_views(self.windows@),
            names: pair_views(self.names@),
            last_good: self.last_good@,
            raw_config: self.raw_config@,
            load_error: opt_view(self.load_error),
            probe_interval: self.probe_interval,
            presence: self.presence_cache@,
            last_closed: views(self.last_closed@),
            detached: detached_views(self.detached@),
            quitting: self.quitting,
            outbox: effect_views(self.outbox@),
        }
    }
}

/// The configuration before any was loaded.
pub open spec fn no_config() -> ConfigView {
    ConfigView {
        windows: Seq::empty(),
        format_on_save: false,
        tab_digit_keys: TabDigitKeys::Jump,
        probe_interval: 5,
        density: Density::Comfortable,
        sidebar_drag: true,
        auto_update: true,
        notify_debug: false,
    }
}

fn empty_config() -> (r: Config)
    ensures
        r@ == no_config(),
{
    let r = Config {
        windows: Vec::new(),
        format_on_save: false,
        tab_digit_keys: TabDigitKeys::Jump,
        probe_interval: 5,
        density: Density::Comfortable,
        sidebar_drag: true,
        auto_update: true,
        notify_debug: false,
    };
    assert(r@.windows =~= Seq::empty());
    r
}

/// Where the window labelled `label` stands; the number of windows where there
/// is none.
pub open spec fn window_index(m: ManagerView, label: Seq<char>) -> int {
    rank(labels_of(m.windows), label)
}

/// Whether the window labelled `label` is live.
pub open spec fn is_live(m: ManagerView, label: Seq<char>) -> bool {
    window_index(m, label) < m.windows.len()
}

/// Where the popped-out window labelled `label` stands.
pub open spec fn detached_index(m: ManagerView, label: Seq<char>) -> int {
    rank(detached_labels(m.detached), label)
}

/// Whether `label` is that of a popped-out window.
pub open spec fn is_out(m: ManagerView, label: Seq<char>) -> bool {
    detached_index(m, label) < m.detached.len()
}

/// Where `id` first stands in `order`.
pub proof fn lemma_rank(order: Seq<Seq<char>>, id: Seq<char>)
    ensures
        0 <= rank(order, id) <= order.len(),
        rank(order, id) < order.len() ==> order[rank(order, id)] == id,
        rank(order, id) < order.len() <==> order.contains(id),
        forall|k: int| 0 <= k < rank(order, id) ==> #[trigger] order[k] != id,
{
    lemma_rank_from(order, id, 0);
}

proof fn lemma_rank_from(order: Seq<Seq<char>>, id: Seq<char>, i: int)
    requires
        0 <= i <= order.len(),
    ensures
        i <= rank_from(order, id, i) <= order.len(),
        rank_from(order, id, i) < order.len() ==> order[rank_from(order, id, i)] == id,
        forall|k: int| i <= k < rank_from(order, id, i) ==> #[trigger] order[k] != id,
    decreases order.len() - i,
{
    if i < order.len() {
        lemma_rank_from(order, id, i + 1);
    }
}

/// What the chrome is told of a window, given which directories are there.
pub open spec fn snapshot_with(
    w: WindowStateView,
    known: Map<Seq<char>, Presence>,
    c: ConfigView,
    error: Option<Seq<char>>,
    present: Seq<bool>,
) -> InitDtoView {
    InitDtoView {
        label: w.label,
        title: w.title,
        colour: w.colour,
        density: c.density.token(),
        sidebar_drag: c.sidebar_drag,
        auto_update: c.auto_update,
        tabs: patched(dtos_of(w.registry.tabs, present), known),
        error,
    }
}

/// Whether `d` is what the chrome is told of a window, for what was found of
/// the directories of its tabs.
pub open spec fn is_snapshot(
    d: InitDtoView,
    w: WindowStateView,
    known: Map<Seq<char>, Presence>,
    c: ConfigView,
    error: Option<Seq<char>>,
) -> bool {
    exists|present: Seq<bool>|
        {
            &&& all_looked_up(dirs_of(w.registry.tabs), present)
            &&& d == #[trigger] snapshot_with(w, known, c, error, present)
        }
}

/// The manager after the registry of window `i` became `v`: what `v` tells
/// surfaces is to be done next.
pub open spec fn settled(m: ManagerView, i: int, v: RegistryView) -> ManagerView {
    ManagerView {
        windows: m.windows.update(
            i,
            WindowStateView {
                registry: RegistryView { outbox: Seq::empty(), ..v },
                ..m.windows[i]
            },
        ),
        outbox: m.outbox + surface_effects(v.outbox),
        ..m
    }
}

/// The manager with one more thing to do.
pub open spec fn with_effect(m: ManagerView, e: EffectView) -> ManagerView {
    ManagerView { outbox: m.outbox.push(e), ..m }
}

/// Closing the surfaces of a popped-out tab.
pub open spec fn close_both(m: ManagerView, primary: usize, secondary: Option<usize>) -> ManagerView {
    let one = with_effect(m, EffectView::Surface(SurfaceCmdView::Close(primary)));
    match secondary {
        Some(s) => with_effect(one, EffectView::Surface(SurfaceCmdView::Close(s))),
        None => one,
    }
}

/// The pairs whose label is not `label`.
pub open spec fn without_label(
    pairs: Seq<(Seq<char>, Seq<char>)>,
    label: Seq<char>,
) -> Seq<(Seq<char>, Seq<char>)>
    decreases pairs.len(),
{
    if pairs.len() == 0 {
        Seq::empty()
    } else if pairs.last().1 == label {
        without_label(pairs.drop_last(), label)
    } else {
        without_label(pairs.drop_last(), label).push(pairs.last())
    }
}

/// The pairs whose title is not `title`.
pub open spec fn without_title(
    pairs: Seq<(Seq<char>, Seq<char>)>,
    title: Seq<char>,
) -> Seq<(Seq<char>, Seq<char>)>
    decreases pairs.len(),
{
    if pairs.len() == 0 {
        Seq::empty()
    } else if pairs.last().0 == title {
        without_title(pairs.drop_last(), title)
    } else {
        without_title(pairs.drop_last(), title).push(pairs.last())
    }
}

/// Those of `labels` that are not `label`.
pub open spec fn without(labels: Seq<Seq<char>>, label: Seq<char>) -> Seq<Seq<char>>
    decreases labels.len(),
{
    if labels.len() == 0 {
        Seq::empty()
    } else if labels.last() == label {
        without(labels.drop_last(), label)
    } else {
        without(labels.drop_last(), label).push(labels.last())
    }
}

/// The windows with `w` among them: in the place of the one with its label, or
/// else after the others.
pub open spec fn put_window(ws: Seq<WindowStateView>, w: WindowStateView) -> Seq<WindowStateView> {
    let i = rank(labels_of(ws), w.label);
    if i < ws.len() {
        ws.update(i, w)
    } else {
        ws.push(w)
    }
}

/// The specs of every configured window, live windows under the labels they
/// have.
pub open spec fn current_specs(m: ManagerView) -> Seq<WindowSpecView> {
    configured(m.last_good, m.names, labels_of(m.windows))
}

/// The labels of window specs.
pub open spec fn spec_labels(specs: Seq<WindowSpecView>) -> Seq<Seq<char>> {
    specs.map_values(|s: WindowSpecView| s.label)
}

/// The label that was closed last and can be reopened.
pub open spec fn next_reopen(m: ManagerView) -> Option<Seq<char>> {
    reopen_target(m.last_closed, spec_labels(current_specs(m)), labels_of(m.windows))
}

/// The probe targets of the windows, or of the one labelled `only`.
pub open spec fn all_targets(ws: Seq<WindowStateView>, only: Option<Seq<char>>) -> Seq<
    (Seq<char>, Seq<ProbeTargetView>),
>
    decreases ws.len(),
{
    if ws.len() == 0 {
        Seq::empty()
    } else {
        let before = all_targets(ws.drop_last(), only);
        let w = ws.last();
        if only is Some && only->0 != w.label {
            before
        } else {
            before.push((w.label, targets_of(w.registry.tabs)))
        }
    }
}

/// The window from `i` on that shows the surface `h`, with the tab and whether
/// it is in view: its window has the focus and it is the tab shown there.
pub open spec fn window_of_surface(
    ws: Seq<WindowStateView>,
    h: usize,
    focused: Option<Seq<char>>,
    i: int,
) -> Option<(Seq<char>, Seq<char>, bool)>
    decreases ws.len() - i,
{
    if i >= ws.len() {
        None
    } else {
        match located(ws[i].registry.tabs, h) {
            Some((tab, _)) => Some(
                (
                    ws[i].label,
                    tab,
                    focused == Some(ws[i].label) && ws[i].registry.active == Some(tab),
                ),
            ),
            None => window_of_surface(ws, h, focused, i + 1),
        }
    }
}

/// The popped-out window from `i` on that shows the surface `h`, and as which
/// pane.
pub open spec fn out_of_surface(ds: Seq<DetachedView>, h: usize, i: int) -> Option<
    (Seq<char>, PaneIdx),
>
    decreases ds.len() - i,
{
    if i >= ds.len() {
        None
    } else if ds[i].surface == h {
        Some((ds[i].label, PaneIdx::Primary))
    } else if ds[i].secondary == Some(h) {
        Some((ds[i].label, PaneIdx::Secondary))
    } else {
        out_of_surface(ds, h, i + 1)
    }
}

/// The popped-out window from `i` on that holds a tab of a window.
pub open spec fn out_of_tab(
    ds: Seq<DetachedView>,
    origin: Seq<char>,
    tab: Seq<char>,
    i: int,
) -> Option<Seq<char>>
    decreases ds.len() - i,
{
    if i >= ds.len() {
        None
    } else if ds[i].origin_label == origin && ds[i].tab_id == tab {
        Some(ds[i].label)
    } else {
        out_of_tab(ds, origin, tab, i + 1)
    }
}

/// What the home surface shows.
#[derive(Debug, PartialEq)]
pub enum HomeState {
    /// There is no configuration file; one can be created.
    NoConfig(String),
    /// The configuration does not load, for this reason.
    Broken(String),
    /// The configured windows, any of which can be opened.
    Windows(Vec<WindowMenuEntry>),
}

pub ghost enum HomeView {
    NoConfig(Seq<char>),
    Broken(Seq<char>),
    Windows(Seq<WindowMenuEntryView>),
}

impl View for HomeState {
    type V = HomeView;

    open spec fn view(&self) -> HomeView {
        match self {
            HomeState::NoConfig(p) => HomeView::NoConfig(p@),
            HomeState::Broken(e) => HomeView::Broken(e@),
            HomeState::Windows(ws) => HomeView::Windows(entry_views(ws@)),
        }
    }
}

/// The rows of the Window menu.
pub open spec fn menu_rows(m: ManagerView) -> Seq<WindowMenuEntryView> {
    entries_of(current_specs(m), labels_of(m.windows))
}

/// Whether closing the home surface leaves nothing on screen.
pub open spec fn home_is_last(m: ManagerView) -> bool {
    m.windows.len() == 0 && m.detached.len() == 0
}

/// What the home surface shows; it is not shown while there is a window or a
/// popped-out tab.
pub open spec fn home_of(m: ManagerView, config_exists: bool, path: Seq<char>) -> Option<HomeView> {
    if m.windows.len() > 0 || m.detached.len() > 0 {
        None
    } else if !config_exists {
        Some(HomeView::NoConfig(path))
    } else {
        match m.load_error {
            Some(e) => Some(HomeView::Broken(e)),
            None => Some(HomeView::Windows(menu_rows(m))),
        }
    }
}

impl WindowManager {
    /// A manager without windows and without a configuration.
    pub fn new() -> (r: WindowManager)
        ensures
            r@ == (ManagerView {
                windows: Seq::empty(),
                names: Seq::empty(),
                last_good: no_config(),
                raw_config: no_config(),
                load_error: None,
                probe_interval: 5,
                presence: Map::empty(),
                last_closed: Seq::empty(),
                detached: Seq::empty(),
                quitting: false,
                outbox: Seq::empty(),
            }),
    {
        let r = WindowManager {
            windows: Vec::new(),
            names: Vec::new(),
            last_good: empty_config(),
            raw_config: empty_config(),
            load_error: None,
            probe_interval: 5,
            presence_cache: PresenceCache::new(),
            last_closed: Vec::new(),
            detached: Vec::new(),
            quitting: false,
            outbox: Vec::new(),
        };
        assert(r@.windows =~= Seq::empty());
        assert(r@.names =~= Seq::empty());
        assert(r@.last_closed =~= Seq::empty());
        assert(r@.detached =~= Seq::empty());
        assert(r@.outbox =~= Seq::empty());
        r
    }

    /// What is still to be done on screen, in order. Nothing is left behind.
    pub fn take_effects(&mut self) -> (r: Vec<Effect>)
        ensures
            effect_views(r@) == old(self)@.outbox,
            final(self)@ == (ManagerView { outbox: Seq::empty(), ..old(self)@ }),
    {
        let mut out: Vec<Effect> = Vec::new();
        core::mem::swap(&mut out, &mut self.outbox);
        assert(self@.outbox =~= Seq::empty());
        out
    }

    /// Queue one thing to do.
    pub(crate) fn push_effect(&mut self, e: Effect)
        ensures
            final(self)@ == with_effect(old(self)@, e@),
    {
        self.outbox.push(e);
        assert(self@.outbox =~= old(self)@.outbox.push(e@));
    }

    /// Queue what the registry of window `i` tells surfaces.
    pub(crate) fn settle(&mut self, i: usize)
        requires
            i < old(self)@.windows.len(),
        ensures
            final(self)@ == settled(old(self)@, i as int, old(self)@.windows[i as int].registry),
    {
        let ghost m0 = self@;
        let ghost v = m0.windows[i as int].registry;
        assert(m0.windows[i as int] == self.windows@[i as int]@);
        let cmds: Vec<SurfaceCmd> = self.windows[i].registry.take_commands();
        assert(self@.windows =~= settled(m0, i as int, v).windows);
        let ghost start = self.outbox@;
        let ghost cv = cmd_views(cmds@);
        for c in it: cmds.into_iter()
            invariant
                cv == cmd_views(it.seq()),
                self@ == (ManagerView {
                    windows: settled(m0, i as int, v).windows,
                    outbox: m0.outbox + surface_effects(cv.take(it.index() as int)),
                    ..m0
                }),
        {
            let ghost k = it.index() as int;
            assert(c@ == cv[k]);
            self.push_effect(Effect::Surface(c));
            assert(surface_effects(cv.take(k + 1)) =~= surface_effects(cv.take(k)).push(
                EffectView::Surface(cv[k]),
            ));
            assert(self@.outbox =~= m0.outbox + surface_effects(cv.take(k + 1)));
        }
        assert(cv.take(cv.len() as int) =~= cv);
    }

    /// Where the window labelled `label` stands.
    pub(crate) fn find_window(&self, label: &str) -> (r: Option<usize>)
        ensures
            match r {
                Some(i) => {
                    &&& i == window_index(self@, label@)
                    &&& i < self@.windows.len()
                    &&& self@.windows.len() == self.windows@.len()
                    &&& self@.windows[i as int] == self.windows@[i as int]@
                    &&& self.windows@[i as int].label@ == label@
                },
                None => !is_live(self@, label@),
            },
    {
        let ghost ls = labels_of(self@.windows);
        let mut i: usize = 0;
        while i < self.windows.len()
            invariant
                i <= self.windows.len(),
                ls == labels_of(self@.windows),
                rank(ls, label@) == rank_from(ls, label@, i as int),
            decreases self.windows.len() - i,
        {
            assert(self@.windows[i as int] == self.windows@[i as int]@);
            if same(self.windows[i].label.as_str(), label) {
                return Some(i);
            }
            i = i + 1;
        }
        None
    }

    /// Where the popped-out window labelled `label` stands.
    pub(crate) fn find_detached(&self, label: &str) -> (r: Option<usize>)
        ensures
            match r {
                Some(i) => {
                    &&& i == detached_index(self@, label@)
                    &&& i < self@.detached.len()
                    &&& self@.detached.len() == self.detached@.len()
                    &&& self@.detached[i as int] == self.detached@[i as int]@
                    &&& self.detached@[i as int].label@ == label@
                },
                None => !is_out(self@, label@),
            },
    {
        let ghost ls = detached_labels(self@.detached);
        let mut i: usize = 0;
        while i < self.detached.len()
            invariant
                i <= self.detached.len(),
                ls == detached_labels(self@.detached),
                rank(ls, label@) == rank_from(ls, label@, i as int),
            decreases self.detached.len() - i,
        {
            assert(self@.detached[i as int] == self.detached@[i as int]@);
            if same(self.detached[i].label.as_str(), label) {
                return Some(i);
            }
            i = i + 1;
        }
        None
    }

    /// The labels of the live windows.
    pub fn taken_labels(&self) -> (r: Vec<String>)
        ensures
            views(r@) == labels_of(self@.windows),
    {
        let mut out: Vec<String> = Vec::new();
        let mut i: usize = 0;
        while i < self.windows.len()
            invariant
                i <= self.windows.len(),
                out.len() == i,
                forall|k: int| 0 <= k < i ==> #[trigger] out@[k]@ == self.windows@[k].label@,
            decreases self.windows.len() - i,
        {
            out.push(self.windows[i].label.clone());
            i = i + 1;
        }
        assert(views(out@) =~= labels_of(self@.windows));
        out
    }

    /// Set how often sessions are looked at, in seconds.
    pub fn set_probe_interval(&mut self, secs: u64)
        ensures
            final(self)@ == (ManagerView { probe_interval: secs, ..old(self)@ }),
    {
        self.probe_interval = secs;
    }

    /// The probe targets of every window, or of the one labelled `only`.
    pub fn probe_targets(&self, only: Option<&str>) -> (r: Vec<(String, Vec<ProbeTarget>)>)
        ensures
            r@.map_values(|t: (String, Vec<ProbeTarget>)| (t.0@, target_views(t.1@)))
                == all_targets(self@.windows, opt_str(only)),
    {
        let ghost wv = self@.windows;
        let ghost ov = opt_str(only);
        let ghost f = |t: (String, Vec<ProbeTarget>)| (t.0@, target_views(t.1@));
        let mut out: Vec<(String, Vec<ProbeTarget>)> = Vec::new();
        assert(out@.map_values(f) =~= all_targets(wv.take(0), ov));
        let mut i: usize = 0;
        while i < self.windows.len()
            invariant
                i <= self.windows.len(),
                wv == self@.windows,
                ov == opt_str(only),
                f == (|t: (String, Vec<ProbeTarget>)| (t.0@, target_views(t.1@))),
                out@.map_values(f) == all_targets(wv.take(i as int), ov),
            decreases self.windows.len() - i,
        {
            let ghost before = out@;
            assert(wv.take(i + 1).drop_last() =~= wv.take(i as int));
            assert(wv.take(i + 1).last() == self.windows@[i as int]@);
            let wanted: bool = match only {
                Some(o) => same(o, self.windows[i].label.as_str()),
                None => true,
            };
            if wanted {
                out.push((self.windows[i].label.clone(), self.windows[i].registry.probe_targets()));
                assert(out@.map_values(f) =~= before.map_values(f).push(f(out@.last())));
            }
            i = i + 1;
        }
        assert(wv.take(i as int) =~= wv);
        out
    }

    /// What the chrome of window `i` is told, under the settings of `c`.
    pub(crate) fn snapshot(&self, i: usize, c: &Config, error: Option<String>) -> (r: InitDto)
        requires
            i < self@.windows.len(),
        ensures
            is_snapshot(
                r@,
                self@.windows[i as int],
                known_of(self@.presence, self@.windows[i as int].label),
                c@,
                opt_view(error),
            ),
    {
        let ghost wv = self@.windows[i as int];
        assert(wv == self.windows@[i as int]@);
        let ws: &WindowState = &self.windows[i];
        let mut tabs: Vec<TabDto> = ws.registry.tab_dtos();
        let ghost present = choose|present: Seq<bool>|
            {
                &&& all_looked_up(dirs_of(wv.registry.tabs), present)
                &&& dto_views(tabs@) == #[trigger] dtos_of(wv.registry.tabs, present)
            };
        self.presence_cache.patch(ws.label.as_str(), &mut tabs);
        let r = InitDto {
            label: ws.label.clone(),
            title: ws.title.clone(),
            colour: ws.colour.clone(),
            density: owned(c.density.as_str()),
            sidebar_drag: c.sidebar_drag,
            auto_update: c.auto_update,
            tabs,
            error,
        };
        assert(r@ == snapshot_with(
            wv,
            known_of(self@.presence, wv.label),
            c@,
            opt_view(error),
            present,
        ));
        r
    }

    /// What the chrome of the window labelled `label` is told. What the
    /// presence cache knows is filled in, so that a reopened window shows its
    /// sessions at once.
    pub fn init_dto(&self, label: &str) -> (r: Option<InitDto>)
        ensures
            r is Some <==> is_live(self@, label@),
            r is Some ==> {
                let w = self@.windows[window_index(self@, label@)];
                is_snapshot(
                    r->0@,
                    w,
                    known_of(self@.presence, w.label),
                    self@.last_good,
                    w.spawn_error,
                )
            },
    {
        match self.find_window(label) {
            Some(i) => Some(
                self.snapshot(i, &self.last_good, copy_opt(&self.windows[i].spawn_error)),
            ),
            None => None,
        }
    }

    /// Where the surface `h` is shown, and whether its tab is in view, given
    /// which window has the focus.
    pub fn locate_surface(&self, h: usize, focused: Option<&str>) -> (r: Option<
        (String, String, bool),
    >)
        ensures
            match r {
                Some(l) => window_of_surface(self@.windows, h, opt_str(focused), 0) == Some(
                    (l.0@, l.1@, l.2),
                ),
                None => window_of_surface(self@.windows, h, opt_str(focused), 0) is None,
            },
    {
        let ghost wv = self@.windows;
        let ghost fv = opt_str(focused);
        let mut i: usize = 0;
        while i < self.windows.len()
            invariant
                i <= self.windows.len(),
                wv == self@.windows,
                fv == opt_str(focused),
                window_of_surface(wv, h, fv, 0) == window_of_surface(wv, h, fv, i as int),
            decreases self.windows.len() - i,
        {
            assert(wv[i as int] == self.windows@[i as int]@);
            let ws: &WindowState = &self.windows[i];
            match ws.registry.tab_of_surface(h) {
                Some(tab) => {
                    let shown: bool = match ws.registry.active_tab() {
                        Some(a) => same(a.as_str(), tab.as_str()),
                        None => false,
                    };
                    let here: bool = match focused {
                        Some(f) => same(f, ws.label.as_str()),
                        None => false,
                    };
                    return Some((ws.label.clone(), tab, here && shown));
                },
                None => {},
            }
            i = i + 1;
        }
        None
    }

    /// Which popped-out window shows the surface `h`, and as which pane.
    pub fn locate_detached_surface(&self, h: usize) -> (r: Option<(String, PaneIdx)>)
        ensures
            match r {
                Some(l) => out_of_surface(self@.detached, h, 0) == Some((l.0@, l.1)),
                None => out_of_surface(self@.detached, h, 0) is None,
            },
    {
        let ghost dv = self@.detached;
        let mut i: usize = 0;
        while i < self.detached.len()
            invariant
                i <= self.detached.len(),
                dv == self@.detached,
                out_of_surface(dv, h, 0) == out_of_surface(dv, h, i as int),
            decreases self.detached.len() - i,
        {
            assert(dv[i as int] == self.detached@[i as int]@);
            let d: &DetachedSurface = &self.detached[i];
            if d.surface == h {
                return Some((d.label.clone(), PaneIdx::Primary));
            }
            match d.secondary {
                Some(s) => {
                    if s == h {
                        return Some((d.label.clone(), PaneIdx::Secondary));
                    }
                },
                None => {},
            }
            i = i + 1;
        }
        None
    }

    /// The label of the window that a tab was popped out into.
    pub fn detached_label_for(&self, origin_label: &str, tab_id: &str) -> (r: Option<String>)
        ensures
            opt_view(r) == out_of_tab(self@.detached, origin_label@, tab_id@, 0),
    {
        let ghost dv = self@.detached;
        let mut i: usize = 0;
        while i < self.detached.len()
            invariant
                i <= self.detached.len(),
                dv == self@.detached,
                out_of_tab(dv, origin_label@, tab_id@, 0) == out_of_tab(
                    dv,
                    origin_label@,
                    tab_id@,
                    i as int,
                ),
            decreases self.detached.len() - i,
        {
            assert(dv[i as int] == self.detached@[i as int]@);
            let d: &DetachedSurface = &self.detached[i];
            if same(d.origin_label.as_str(), origin_label) && same(d.tab_id.as_str(), tab_id) {
                return Some(d.label.clone());
            }
            i = i + 1;
        }
        None
    }

    /// Whether nothing is on screen: neither a window nor a popped-out tab.
    pub fn is_empty(&self) -> (r: bool)
        ensures
            r == (self@.windows.len() == 0 && self@.detached.len() == 0),
    {
        self.windows.len() == 0 && self.detached.len() == 0
    }

    /// Whether closing the home surface ends the application: it does where
    /// nothing else is on screen.
    pub fn quits_with_home(&self) -> (r: bool)
        ensures
            r == home_is_last(self@),
    {
        self.is_empty()
    }

    /// The specs of every configured window, live windows under the labels
    /// they have.
    pub fn configured_specs(&self) -> (r: Vec<WindowSpec>)
        ensures
            spec_views(r@) == current_specs(self@),
    {
        configured_specs(&self.last_good, &self.names, &self.taken_labels())
    }

    /// The rows of the Window menu, each tagged with whether its window is open.
    pub fn window_menu_entries(&self) -> (r: Vec<WindowMenuEntry>)
        ensures
            entry_views(r@) == menu_rows(self@),
    {
        window_menu_entries(&self.configured_specs(), &self.taken_labels())
    }

    /// The labels of every configured window.
    fn configured_labels(&self) -> (r: Vec<String>)
        ensures
            views(r@) == spec_labels(current_specs(self@)),
    {
        let specs: Vec<WindowSpec> = self.configured_specs();
        let mut out: Vec<String> = Vec::new();
        let mut i: usize = 0;
        while i < specs.len()
            invariant
                i <= specs.len(),
                out.len() == i,
                forall|k: int| 0 <= k < i ==> #[trigger] out@[k]@ == specs@[k].label@,
            decreases specs.len() - i,
        {
            out.push(specs[i].label.clone());
            i = i + 1;
        }
        assert(views(out@) =~= spec_labels(spec_views(specs@)));
        out
    }

    /// The label of the window that was closed last, where it can be reopened.
    pub fn reopen_target(&self) -> (r: Option<String>)
        ensures
            opt_view(r) == next_reopen(self@),
    {
        next_reopen_target(&self.last_closed, &self.configured_labels(), &self.taken_labels())
    }

    /// Whether a closed window can be reopened.
    pub fn has_reopen_target(&self) -> (r: bool)
        ensures
            r == (next_reopen(self@) is Some),
    {
        self.reopen_target().is_some()
    }

    /// What the home surface shows, if it is shown at all, given whether the
    /// configuration file is there.
    pub fn home_state(&self, config_exists: bool, path: &str) -> (r: Option<HomeState>)
        ensures
            match r {
                Some(h) => home_of(self@, config_exists, path@) == Some(h@),
                None => home_of(self@, config_exists, path@) is None,
            },
    {
        if !self.is_empty() {
            None
        } else if !config_exists {
            Some(HomeState::NoConfig(owned(path)))
        } else {
            match &self.load_error {
                Some(e) => Some(HomeState::Broken(e.clone())),
                None => Some(HomeState::Windows(self.window_menu_entries())),
            }
        }
    }

    /// Raise the window labelled `label`, if it is live.
    pub fn focus_window(&mut self, label: &str)
        ensures
            final(self)@ == (if is_live(old(self)@, label@) {
                with_effect(old(self)@, EffectView::FocusWindow(label@))
            } else {
                old(self)@
            }),
    {
        if self.find_window(label).is_some() {
            self.push_effect(Effect::FocusWindow(owned(label)));
        }
    }

    /// Give a popped-out window's surface its rectangle. One for a second pane
    /// that is not there is dropped.
    pub fn set_detached_frame(&mut self, label: &str, which: PaneIdx, rect: PixelRect)
        ensures
            final(self)@ == detached_framed(old(self)@, label@, which, rect),
    {
        match self.find_detached(label) {
            None => {},
            Some(i) => {
                let target: Option<usize> = match which {
                    PaneIdx::Primary => Some(self.detached[i].surface),
                    PaneIdx::Secondary => self.detached[i].secondary,
                };
                match target {
                    Some(h) => {
                        self.push_effect(Effect::Surface(SurfaceCmd::SetFrame(h, rect)));
                    },
                    None => {},
                }
            },
        }
    }

    /// The pairs without those of `label`.
    pub(crate) fn drop_names(&mut self, label: &str)
        ensures
            final(self)@ == (ManagerView {
                names: without_label(old(self)@.names, label@),
                ..old(self)@
            }),
    {
        let ghost nv = pair_views(self.names@);
        let mut kept: Vec<(String, String)> = Vec::new();
        assert(pair_views(kept@) =~= without_label(nv.take(0), label@));
        let mut i: usize = 0;
        while i < self.names.len()
            invariant
                i <= self.names.len(),
                nv == pair_views(self.names@),
                pair_views(kept@) == without_label(nv.take(i as int), label@),
            decreases self.names.len() - i,
        {
            let ghost before = kept@;
            let ghost pair = (self.names@[i as int].0@, self.names@[i as int].1@);
            assert(nv.take(i + 1).drop_last() =~= nv.take(i as int));
            assert(nv.take(i + 1).last() == pair);
            if !same(self.names[i].1.as_str(), label) {
                kept.push((self.names[i].0.clone(), self.names[i].1.clone()));
                assert(pair_views(kept@) =~= pair_views(before).push(pair));
            }
            i = i + 1;
        }
        assert(nv.take(i as int) =~= nv);
        self.names = kept;
    }

    /// Give the window titled `title` the label `label`.
    pub(crate) fn put_name(&mut self, title: &str, label: &str)
        ensures
            final(self)@ == (ManagerView {
                names: without_title(old(self)@.names, title@).push((title@, label@)),
                ..old(self)@
            }),
    {
        let ghost nv = pair_views(self.names@);
        let mut kept: Vec<(String, String)> = Vec::new();
        assert(pair_views(kept@) =~= without_title(nv.take(0), title@));
        let mut i: usize = 0;
        while i < self.names.len()
            invariant
                i <= self.names.len(),
                nv == pair_views(self.names@),
                pair_views(kept@) == without_title(nv.take(i as int), title@),
            decreases self.names.len() - i,
        {
            let ghost before = kept@;
            let ghost pair = (self.names@[i as int].0@, self.names@[i as int].1@);
            assert(nv.take(i + 1).drop_last() =~= nv.take(i as int));
            assert(nv.take(i + 1).last() == pair);
            if !same(self.names[i].0.as_str(), title) {
                kept.push((self.names[i].0.clone(), self.names[i].1.clone()));
                assert(pair_views(kept@) =~= pair_views(before).push(pair));
            }
            i = i + 1;
        }
        assert(nv.take(i as int) =~= nv);
        let ghost before = kept@;
        kept.push((owned(title), owned(label)));
        assert(pair_views(kept@) =~= pair_views(before).push((title@, label@)));
        self.names = kept;
    }

    /// Forget that `label` was closed.
    pub(crate) fn drop_closed(&mut self, label: &str)
        ensures
            final(self)@ == (ManagerView {
                last_closed: without(old(self)@.last_closed, label@),
                ..old(self)@
            }),
    {
        let ghost cv = views(self.last_closed@);
        let mut kept: Vec<String> = Vec::new();
        assert(views(kept@) =~= without(cv.take(0), label@));
        let mut i: usize = 0;
        while i < self.last_closed.len()
            invariant
                i <= self.last_closed.len(),
                cv == views(self.last_closed@),
                views(kept@) == without(cv.take(i as int), label@),
            decreases self.last_closed.len() - i,
        {
            let ghost before = kept@;
            assert(cv.take(i + 1).drop_last() =~= cv.take(i as int));
            assert(cv.take(i + 1).last() == self.last_closed@[i as int]@);
            if !same(self.last_closed[i].as_str(), label) {
                kept.push(self.last_closed[i].clone());
                assert(views(kept@) =~= views(before).push(self.last_closed@[i as int]@));
            }
            i = i + 1;
        }
        assert(cv.take(i as int) =~= cv);
        self.last_closed = kept;
    }
}

/// The manager after a popped-out window reported the rectangle of a hole.
pub open spec fn detached_framed(
    m: ManagerView,
    label: Seq<char>,
    which: PaneIdx,
    rect: PixelRect,
) -> ManagerView {
    if is_out(m, label) {
        let d = m.detached[detached_index(m, label)];
        let target = match which {
            PaneIdx::Primary => Some(d.surface),
            PaneIdx::Secondary => d.secondary,
        };
        match target {
            Some(h) => with_effect(m, EffectView::Surface(SurfaceCmdView::SetFrame(h, rect))),
            None => m,
        }
    } else {
        m
    }
}

/// From now on the application is on its way out.
pub fn mark_quitting(m: &mut WindowManager)
    ensures
        final(m)@ == (ManagerView { quitting: true, ..old(m)@ }),
{
    m.quitting = true;
}

/// Whether the application is on its way out.
pub fn is_quitting(m: &WindowManager) -> (r: bool)
    ensures
        r == m@.quitting,
{
    m.quitting
}

} // verus!
