//! Resolving a written configuration: defaults, cascades and validation.

use crate::colour::{parsed, Colour, ColourError, ColourErrorView};
use crate::model::{
    root_views, tab_views, warning_views, window_views, Config, ConfigView, Density, Root, RootView,
    Tab, TabDigitKeys, TabView, Warning, WarningView, Window, WindowView,
};
use crate::paths::{basename, basename_of, dir_key, expand_tilde, normalize_dir_key, tilde_expanded};
use crate::raw::{
    RawConfig, RawConfigView, RawGroup, RawGroupView, RawRoot, RawRootView, RawTab, RawTabView,
    RawWindow, RawWindowView,
};
use crate::text::{holds, is_blank, opt_str, opt_view, owned, same, trim, trimmed, views};
use vstd::prelude::*;

verus! {

/// The colour of a window that names none: a neutral grey.
pub open spec fn neutral_colour() -> Colour {
    Colour { r: 0x6b, g: 0x72, b: 0x80 }
}

/// The colour of a window that names none: a neutral grey.
pub fn default_colour() -> (r: Colour)
    ensures
        r == neutral_colour(),
{
    Colour { r: 0x6b, g: 0x72, b: 0x80 }
}

/// The width of a window that gives none.
pub const DEFAULT_WIDTH: u32 = 1500;

/// The height of a window that gives none.
pub const DEFAULT_HEIGHT: u32 = 1000;

/// How deep a root is scanned where it does not say.
pub const DEFAULT_ROOT_DEPTH: u32 = 6;

/// Seconds between settled probe passes where the configuration does not say.
pub const DEFAULT_PROBE_INTERVAL: u64 = 5;

/// The shell where none is set at any level and the caller injects none.
pub const DEFAULT_SHELL: &'static str = "/bin/zsh -l";

/// Why a configuration is not valid. The `window` of a variant is the title
/// as it is written.
#[derive(Debug, Clone, PartialEq)]
pub enum ResolveError {
    DuplicateWindow(String),
    DuplicateTabIdentity { window: String, identity: String },
    EmptyDir { window: String },
    BadColour { window: String, source: ColourError },
    EmptyWindowTitle { index: usize },
    EmptyTabTitle { window: String },
    EmptyGroupName { window: String },
    DuplicateGroup { window: String, group: String },
    InvalidWindowSize { window: String, width: u32, height: u32 },
    BadTabDigitKeys(String),
    BadDensity(String),
    EmptyRootDir { window: String },
    EmptyRootName { window: String },
    DuplicateSection { window: String, name: String },
    InvalidRootDepth { window: String, depth: u32 },
}

pub ghost enum ResolveErrorView {
    DuplicateWindow(Seq<char>),
    DuplicateTabIdentity { window: Seq<char>, identity: Seq<char> },
    EmptyDir { window: Seq<char> },
    BadColour { window: Seq<char>, source: ColourErrorView },
    EmptyWindowTitle { index: int },
    EmptyTabTitle { window: Seq<char> },
    EmptyGroupName { window: Seq<char> },
    DuplicateGroup { window: Seq<char>, group: Seq<char> },
    InvalidWindowSize { window: Seq<char>, width: u32, height: u32 },
    BadTabDigitKeys(Seq<char>),
    BadDensity(Seq<char>),
    EmptyRootDir { window: Seq<char> },
    EmptyRootName { window: Seq<char> },
    DuplicateSection { window: Seq<char>, name: Seq<char> },
    InvalidRootDepth { window: Seq<char>, depth: u32 },
}

impl View for ResolveError {
    type V = ResolveErrorView;

    open spec fn view(&self) -> ResolveErrorView {
        match self {
            ResolveError::DuplicateWindow(t) => ResolveErrorView::DuplicateWindow(t@),
            ResolveError::DuplicateTabIdentity {
                window,
                identity,
            } => ResolveErrorView::DuplicateTabIdentity { window: window@, identity: identity@ },
            ResolveError::EmptyDir { window } => ResolveErrorView::EmptyDir { window: window@ },
            ResolveError::BadColour { window, source } => ResolveErrorView::BadColour {
                window: window@,
                source: source@,
            },
            ResolveError::EmptyWindowTitle { index } => ResolveErrorView::EmptyWindowTitle {
                index: *index as int,
            },
            ResolveError::EmptyTabTitle { window } => ResolveErrorView::EmptyTabTitle {
                window: window@,
            },
            ResolveError::EmptyGroupName { window } => ResolveErrorView::EmptyGroupName {
                window: window@,
            },
            ResolveError::DuplicateGroup { window, group } => ResolveErrorView::DuplicateGroup {
                window: window@,
                group: group@,
            },
            ResolveError::InvalidWindowSize {
                window,
                width,
                height,
            } => ResolveErrorView::InvalidWindowSize {
                window: window@,
                width: *width,
                height: *height,
            },
            ResolveError::BadTabDigitKeys(s) => ResolveErrorView::BadTabDigitKeys(s@),
            ResolveError::BadDensity(s) => ResolveErrorView::BadDensity(s@),
            ResolveError::EmptyRootDir { window } => ResolveErrorView::EmptyRootDir {
                window: window@,
            },
            ResolveError::EmptyRootName { window } => ResolveErrorView::EmptyRootName {
                window: window@,
            },
            ResolveError::DuplicateSection { window, name } => ResolveErrorView::DuplicateSection {
                window: window@,
                name: name@,
            },
            ResolveError::InvalidRootDepth {
                window,
                depth,
            } => ResolveErrorView::InvalidRootDepth { window: window@, depth: *depth },
        }
    }
}

/// What every window of a configuration resolves against: the home directory,
/// the shell to fall back on, and the global settings.
pub ghost struct Scope {
    pub home: Option<Seq<char>>,
    pub default_shell: Seq<char>,
    pub shell: Option<Seq<char>>,
    pub cmd: Option<Seq<char>>,
    pub probe: Option<Seq<char>>,
    pub kill: Option<Seq<char>>,
}

/// The scope that a written configuration sets up.
pub open spec fn scope_of(
    raw: RawConfigView,
    default_shell: Seq<char>,
    home: Option<Seq<char>>,
) -> Scope {
    Scope { home, default_shell, shell: raw.shell, cmd: raw.cmd, probe: raw.probe, kill: raw.kill }
}

/// The nearest level that sets a value; a blank value counts as set and means
/// none.
pub open spec fn cascaded(
    near: Option<Seq<char>>,
    window: Option<Seq<char>>,
    global: Option<Seq<char>>,
) -> Option<Seq<char>> {
    let nearest = if near is Some {
        near
    } else if window is Some {
        window
    } else {
        global
    };
    if nearest is Some && is_blank(nearest->0) {
        None
    } else {
        nearest
    }
}

/// `o`, or `d` where there is none.
pub open spec fn or_else(o: Option<Seq<char>>, d: Seq<char>) -> Seq<char> {
    match o {
        Some(s) => s,
        None => d,
    }
}

/// The identity a tab is given explicitly: a blank one counts as none.
pub open spec fn explicit_id(id: Option<Seq<char>>) -> Option<Seq<char>> {
    if id is Some && !is_blank(id->0) {
        Some(trimmed(id->0))
    } else {
        None
    }
}

/// What one written tab resolves to, on its own.
pub open spec fn tab_of(
    rt: RawTabView,
    group: Option<Seq<char>>,
    w: RawWindowView,
    sc: Scope,
) -> Result<TabView, ResolveErrorView> {
    if is_blank(rt.dir) {
        Err(ResolveErrorView::EmptyDir { window: w.title })
    } else if rt.title is Some && is_blank(rt.title->0) {
        Err(ResolveErrorView::EmptyTabTitle { window: w.title })
    } else {
        let dir = tilde_expanded(trimmed(rt.dir), sc.home);
        let id = explicit_id(rt.id);
        Ok(
            TabView {
                id,
                key: or_else(id, dir_key(dir)),
                title: match rt.title {
                    Some(t) => trimmed(t),
                    None => basename_of(dir),
                },
                dir,
                shell: or_else(cascaded(rt.shell, w.shell, sc.shell), sc.default_shell),
                startup: cascaded(rt.cmd, w.cmd, sc.cmd),
                load_on_open: rt.load_on_open,
                group,
                probe: cascaded(rt.probe, w.probe, sc.probe),
                kill: cascaded(rt.kill, w.kill, sc.kill),
                split: None,
            },
        )
    }
}

/// Whether one of `tabs` has identity `key`.
pub open spec fn has_key(tabs: Seq<TabView>, key: Seq<char>) -> bool {
    exists|i: int| 0 <= i < tabs.len() && (#[trigger] tabs[i]).key == key
}

/// `tabs` with the written tabs `i..` of one section after them: the first
/// that is not valid, or whose identity is taken, fails the whole.
pub open spec fn tabs_from(
    tabs: Seq<TabView>,
    raws: Seq<RawTabView>,
    i: int,
    group: Option<Seq<char>>,
    w: RawWindowView,
    sc: Scope,
) -> Result<Seq<TabView>, ResolveErrorView>
    decreases raws.len() - i,
{
    if i >= raws.len() {
        Ok(tabs)
    } else {
        match tab_of(raws[i], group, w, sc) {
            Err(e) => Err(e),
            Ok(t) => if has_key(tabs, t.key) {
                Err(ResolveErrorView::DuplicateTabIdentity { window: w.title, identity: t.key })
            } else {
                tabs_from(tabs.push(t), raws, i + 1, group, w, sc)
            },
        }
    }
}

/// Whether the written tabs of one section before the `k`th make `so_far` of
/// `tabs`, and the `k`th fails.
pub open spec fn stopped_at(
    tabs: Seq<TabView>,
    raws: Seq<RawTabView>,
    k: int,
    group: Option<Seq<char>>,
    w: RawWindowView,
    sc: Scope,
    so_far: Seq<TabView>,
) -> bool {
    &&& 0 <= k < raws.len()
    &&& tabs_from(tabs, raws.take(k), 0, group, w, sc) == Ok::<Seq<TabView>, ResolveErrorView>(
        so_far,
    )
    &&& tabs_from(so_far, raws.take(k + 1), k, group, w, sc) is Err
}

/// Whether `so_far` is what the written tabs before the first that fails make
/// of `tabs`.
pub open spec fn stopped(
    tabs: Seq<TabView>,
    raws: Seq<RawTabView>,
    group: Option<Seq<char>>,
    w: RawWindowView,
    sc: Scope,
    so_far: Seq<TabView>,
) -> bool {
    exists|k: int| #[trigger] stopped_at(tabs, raws, k, group, w, sc, so_far)
}

/// One more written tab goes on from where those before it left off.
proof fn lemma_one_more_tab(
    tabs: Seq<TabView>,
    raws: Seq<RawTabView>,
    i: int,
    k: int,
    group: Option<Seq<char>>,
    w: RawWindowView,
    sc: Scope,
)
    requires
        0 <= i <= k < raws.len(),
        tabs_from(tabs, raws.take(k), i, group, w, sc) is Ok,
    ensures
        tabs_from(tabs, raws.take(k + 1), i, group, w, sc) == tabs_from(
            tabs_from(tabs, raws.take(k), i, group, w, sc)->Ok_0,
            raws.take(k + 1),
            k,
            group,
            w,
            sc,
        ),
    decreases k - i,
{
    if i < k {
        assert(raws.take(k)[i] == raws[i] && raws.take(k + 1)[i] == raws[i]);
        let t = tab_of(raws[i], group, w, sc)->Ok_0;
        lemma_one_more_tab(tabs.push(t), raws, i + 1, k, group, w, sc);
    }
}

/// The tabs of a window and the names of the sections they stand in.
#[verifier::ext_equal]
pub ghost struct Sectioned {
    pub tabs: Seq<TabView>,
    pub names: Seq<Seq<char>>,
}

/// `s` with the written groups `i..` after it.
pub open spec fn groups_from(
    s: Sectioned,
    groups: Seq<RawGroupView>,
    i: int,
    w: RawWindowView,
    sc: Scope,
) -> Result<Sectioned, ResolveErrorView>
    decreases groups.len() - i,
{
    if i >= groups.len() {
        Ok(s)
    } else {
        let name = trimmed(groups[i].name);
        if name.len() == 0 {
            Err(ResolveErrorView::EmptyGroupName { window: w.title })
        } else if s.names.contains(name) {
            Err(ResolveErrorView::DuplicateGroup { window: w.title, group: name })
        } else {
            match tabs_from(s.tabs, groups[i].tabs, 0, Some(name), w, sc) {
                Err(e) => Err(e),
                Ok(tabs) => groups_from(
                    Sectioned { tabs, names: s.names.push(name) },
                    groups,
                    i + 1,
                    w,
                    sc,
                ),
            }
        }
    }
}

/// What one written root resolves to, on its own.
pub open spec fn root_of(rr: RawRootView, w: RawWindowView, sc: Scope) -> Result<
    RootView,
    ResolveErrorView,
> {
    if is_blank(rr.dir) {
        Err(ResolveErrorView::EmptyRootDir { window: w.title })
    } else if rr.name is Some && is_blank(rr.name->0) {
        Err(ResolveErrorView::EmptyRootName { window: w.title })
    } else if rr.depth == Some(0u32) {
        Err(ResolveErrorView::InvalidRootDepth { window: w.title, depth: 0 })
    } else {
        let dir = tilde_expanded(trimmed(rr.dir), sc.home);
        Ok(
            RootView {
                name: match rr.name {
                    Some(n) => trimmed(n),
                    None => basename_of(dir),
                },
                dir,
                depth: match rr.depth {
                    Some(d) => d,
                    None => DEFAULT_ROOT_DEPTH,
                },
                shell: or_else(cascaded(rr.shell, w.shell, sc.shell), sc.default_shell),
                startup: cascaded(rr.cmd, w.cmd, sc.cmd),
                probe: cascaded(rr.probe, w.probe, sc.probe),
                kill: cascaded(rr.kill, w.kill, sc.kill),
                split: None,
            },
        )
    }
}

/// `roots` with the written roots `i..` after them, where no name may be one
/// of `names` or repeat.
pub open spec fn roots_from(
    roots: Seq<RootView>,
    names: Seq<Seq<char>>,
    raws: Seq<RawRootView>,
    i: int,
    w: RawWindowView,
    sc: Scope,
) -> Result<Seq<RootView>, ResolveErrorView>
    decreases raws.len() - i,
{
    if i >= raws.len() {
        Ok(roots)
    } else {
        match root_of(raws[i], w, sc) {
            Err(e) => Err(e),
            Ok(r) => if names.contains(r.name) {
                Err(ResolveErrorView::DuplicateSection { window: w.title, name: r.name })
            } else {
                roots_from(roots.push(r), names.push(r.name), raws, i + 1, w, sc)
            },
        }
    }
}

/// The colour of a written window.
pub open spec fn colour_of(w: RawWindowView) -> Result<Colour, ResolveErrorView> {
    match w.colour {
        None => Ok(neutral_colour()),
        Some(s) => match parsed(s) {
            Ok(c) => Ok(c),
            Err(e) => Err(ResolveErrorView::BadColour { window: w.title, source: e }),
        },
    }
}

/// The width of a written window.
pub open spec fn width_of(w: RawWindowView) -> u32 {
    match w.width {
        Some(x) => x,
        None => DEFAULT_WIDTH,
    }
}

/// The height of a written window.
pub open spec fn height_of(w: RawWindowView) -> u32 {
    match w.height {
        Some(x) => x,
        None => DEFAULT_HEIGHT,
    }
}

/// The tabs of a written window: the loose ones first, then each group's.
pub open spec fn sections_of(w: RawWindowView, sc: Scope) -> Result<Sectioned, ResolveErrorView> {
    match tabs_from(Seq::empty(), w.tabs, 0, None, w, sc) {
        Err(e) => Err(e),
        Ok(loose) => groups_from(
            Sectioned { tabs: loose, names: Seq::empty() },
            w.groups,
            0,
            w,
            sc,
        ),
    }
}

/// What one written window resolves to, on its own.
pub open spec fn window_of(w: RawWindowView, sc: Scope) -> Result<WindowView, ResolveErrorView> {
    match colour_of(w) {
        Err(e) => Err(e),
        Ok(colour) => if width_of(w) == 0 || height_of(w) == 0 {
            Err(
                ResolveErrorView::InvalidWindowSize {
                    window: w.title,
                    width: width_of(w),
                    height: height_of(w),
                },
            )
        } else {
            match sections_of(w, sc) {
                Err(e) => Err(e),
                Ok(s) => match roots_from(Seq::empty(), s.names, w.roots, 0, w, sc) {
                    Err(e) => Err(e),
                    Ok(roots) => Ok(
                        WindowView {
                            title: trimmed(w.title),
                            colour,
                            width: width_of(w),
                            height: height_of(w),
                            open_on_start: match w.open_on_start {
                                Some(b) => b,
                                None => true,
                            },
                            tabs: s.tabs,
                            roots,
                        },
                    ),
                },
            }
        },
    }
}

/// Whether one of `windows` is titled `title`.
pub open spec fn has_title(windows: Seq<WindowView>, title: Seq<char>) -> bool {
    exists|i: int| 0 <= i < windows.len() && (#[trigger] windows[i]).title == title
}

/// `windows` with the written windows `i..` after them.
pub open spec fn windows_from(
    windows: Seq<WindowView>,
    raws: Seq<RawWindowView>,
    i: int,
    sc: Scope,
) -> Result<Seq<WindowView>, ResolveErrorView>
    decreases raws.len() - i,
{
    if i >= raws.len() {
        Ok(windows)
    } else {
        let title = trimmed(raws[i].title);
        if title.len() == 0 {
            Err(ResolveErrorView::EmptyWindowTitle { index: i })
        } else if has_title(windows, title) {
            Err(ResolveErrorView::DuplicateWindow(title))
        } else {
            match window_of(raws[i], sc) {
                Err(e) => Err(e),
                Ok(w) => windows_from(windows.push(w), raws, i + 1, sc),
            }
        }
    }
}

/// The meaning of a written `tab_digit_keys`.
pub open spec fn digit_keys_of(raw: Option<Seq<char>>) -> Result<TabDigitKeys, ResolveErrorView> {
    match raw {
        None => Ok(TabDigitKeys::Jump),
        Some(s) => if trimmed(s).len() == 0 || trimmed(s) == "jump"@ {
            Ok(TabDigitKeys::Jump)
        } else if trimmed(s) == "cycle"@ {
            Ok(TabDigitKeys::Cycle)
        } else {
            Err(ResolveErrorView::BadTabDigitKeys(trimmed(s)))
        },
    }
}

/// The meaning of a written `density`.
pub open spec fn density_of(raw: Option<Seq<char>>) -> Result<Density, ResolveErrorView> {
    match raw {
        None => Ok(Density::Comfortable),
        Some(s) => if trimmed(s).len() == 0 || trimmed(s) == "comfortable"@ {
            Ok(Density::Comfortable)
        } else if trimmed(s) == "compact"@ {
            Ok(Density::Compact)
        } else {
            Err(ResolveErrorView::BadDensity(trimmed(s)))
        },
    }
}

/// What a written configuration resolves to, for a given home directory and
/// fallback shell.
pub open spec fn config_of(
    raw: RawConfigView,
    default_shell: Seq<char>,
    home: Option<Seq<char>>,
) -> Result<ConfigView, ResolveErrorView> {
    match digit_keys_of(raw.tab_digit_keys) {
        Err(e) => Err(e),
        Ok(tab_digit_keys) => match density_of(raw.density) {
            Err(e) => Err(e),
            Ok(density) => match windows_from(
                Seq::empty(),
                raw.windows,
                0,
                scope_of(raw, default_shell, home),
            ) {
                Err(e) => Err(e),
                Ok(windows) => Ok(
                    ConfigView {
                        windows,
                        format_on_save: raw.format_on_save == Some(true),
                        tab_digit_keys,
                        probe_interval: match raw.probe_interval {
                            Some(n) => n,
                            None => DEFAULT_PROBE_INTERVAL,
                        },
                        density,
                        sidebar_drag: raw.sidebar_drag != Some(false),
                        auto_update: raw.auto_update != Some(false),
                        notify_debug: raw.notify_debug == Some(true),
                    },
                ),
            },
        },
    }
}

/// An optional string as an optional slice.
fn opt_ref(o: &Option<String>) -> (r: Option<&str>)
    ensures
        opt_str(r) == opt_view(*o),
{
    match o {
        Some(s) => Some(s.as_str()),
        None => None,
    }
}

/// An optional slice as an optional string.
fn opt_owned(o: Option<&str>) -> (r: Option<String>)
    ensures
        opt_view(r) == opt_str(o),
{
    match o {
        Some(s) => Some(owned(s)),
        None => None,
    }
}

/// Resolve a cascading setting: the nearest level that sets it wins, and a
/// blank value there resets it to unset.
pub fn cascade<'a>(
    tab: Option<&'a str>,
    window: Option<&'a str>,
    global: Option<&'a str>,
) -> (r: Option<&'a str>)
    ensures
        opt_str(r) == cascaded(opt_str(tab), opt_str(window), opt_str(global)),
{
    let nearest: Option<&'a str> = match (tab, window) {
        (Some(t), _) => Some(t),
        (None, Some(w)) => Some(w),
        (None, None) => global,
    };
    match nearest {
        Some(s) => {
            if trim(s).unicode_len() == 0 {
                None
            } else {
                Some(s)
            }
        },
        None => None,
    }
}

/// Parse the global `tab_digit_keys` setting.
pub fn resolve_tab_digit_keys(raw: Option<&str>) -> (r: Result<TabDigitKeys, ResolveError>)
    ensures
        match r {
            Ok(k) => digit_keys_of(opt_str(raw)) == Ok::<TabDigitKeys, ResolveErrorView>(k),
            Err(e) => digit_keys_of(opt_str(raw)) == Err::<TabDigitKeys, ResolveErrorView>(e@),
        },
{
    match raw {
        None => Ok(TabDigitKeys::Jump),
        Some(s) => {
            let t: &str = trim(s);
            if t.unicode_len() == 0 || same(t, "jump") {
                Ok(TabDigitKeys::Jump)
            } else if same(t, "cycle") {
                Ok(TabDigitKeys::Cycle)
            } else {
                Err(ResolveError::BadTabDigitKeys(owned(t)))
            }
        },
    }
}

/// Parse the global `density` setting.
pub fn resolve_density(raw: Option<&str>) -> (r: Result<Density, ResolveError>)
    ensures
        match r {
            Ok(k) => density_of(opt_str(raw)) == Ok::<Density, ResolveErrorView>(k),
            Err(e) => density_of(opt_str(raw)) == Err::<Density, ResolveErrorView>(e@),
        },
{
    match raw {
        None => Ok(Density::Comfortable),
        Some(s) => {
            let t: &str = trim(s);
            if t.unicode_len() == 0 || same(t, "comfortable") {
                Ok(Density::Comfortable)
            } else if same(t, "compact") {
                Ok(Density::Compact)
            } else {
                Err(ResolveError::BadDensity(owned(t)))
            }
        },
    }
}

/// The values that a configuration's windows resolve against.
pub struct Globals<'a> {
    pub raw: &'a RawConfig,
    pub default_shell: &'a str,
    pub home: &'a Option<String>,
}

impl<'a> Globals<'a> {
    pub open spec fn scope(&self) -> Scope {
        scope_of(self.raw@, self.default_shell@, opt_view(*self.home))
    }
}

/// Whether one of `tabs` has identity `key`.
fn key_taken(tabs: &Vec<Tab>, key: &str) -> (r: bool)
    ensures
        r == has_key(tab_views(tabs@), key@),
{
    let mut i: usize = 0;
    while i < tabs.len()
        invariant
            i <= tabs.len(),
            forall|k: int| 0 <= k < i ==> (#[trigger] tab_views(tabs@)[k]).key != key@,
        decreases tabs.len() - i,
    {
        if same(tabs[i].key.as_str(), key) {
            assert(tab_views(tabs@)[i as int].key == key@);
            return true;
        }
        i = i + 1;
    }
    false
}

/// Whether one of `windows` is titled `title`.
fn title_taken(windows: &Vec<Window>, title: &str) -> (r: bool)
    ensures
        r == has_title(window_views(windows@), title@),
{
    let mut i: usize = 0;
    while i < windows.len()
        invariant
            i <= windows.len(),
            forall|k: int| 0 <= k < i ==> (#[trigger] window_views(windows@)[k]).title != title@,
        decreases windows.len() - i,
    {
        if same(windows[i].title.as_str(), title) {
            assert(window_views(windows@)[i as int].title == title@);
            return true;
        }
        i = i + 1;
    }
    false
}

/// Resolve one written tab into a [`Tab`] of section `group`.
pub fn resolve_tab(rt: &RawTab, group: Option<&str>, rp: &RawWindow, g: &Globals) -> (r: Result<
    Tab,
    ResolveError,
>)
    ensures
        match r {
            Ok(t) => tab_of(rt@, opt_str(group), rp@, g.scope()) == Ok::<TabView, ResolveErrorView>(
                t@,
            ),
            Err(e) => tab_of(rt@, opt_str(group), rp@, g.scope()) == Err::<
                TabView,
                ResolveErrorView,
            >(e@),
        },
{
    let dir_str: &str = trim(rt.dir.as_str());
    if dir_str.unicode_len() == 0 {
        return Err(ResolveError::EmptyDir { window: rp.title.clone() });
    }
    let dir: String = expand_tilde(dir_str, g.home);
    let title: String = match &rt.title {
        Some(t) => {
            let shown: &str = trim(t.as_str());
            if shown.unicode_len() == 0 {
                return Err(ResolveError::EmptyTabTitle { window: rp.title.clone() });
            }
            owned(shown)
        },
        None => basename(dir.as_str()),
    };
    let id: Option<String> = match &rt.id {
        Some(i) => {
            let t: &str = trim(i.as_str());
            if t.unicode_len() == 0 {
                None
            } else {
                Some(owned(t))
            }
        },
        None => None,
    };
    let key: String = match &id {
        Some(i) => i.clone(),
        None => normalize_dir_key(dir.as_str()),
    };
    let shell: String = match cascade(opt_ref(&rt.shell), opt_ref(&rp.shell), opt_ref(&g.raw.shell)) {
        Some(s) => owned(s),
        None => owned(g.default_shell),
    };
    let startup: Option<String> = opt_owned(
        cascade(opt_ref(&rt.cmd), opt_ref(&rp.cmd), opt_ref(&g.raw.cmd)),
    );
    let probe: Option<String> = opt_owned(
        cascade(opt_ref(&rt.probe), opt_ref(&rp.probe), opt_ref(&g.raw.probe)),
    );
    let kill: Option<String> = opt_owned(
        cascade(opt_ref(&rt.kill), opt_ref(&rp.kill), opt_ref(&g.raw.kill)),
    );
    Ok(
        Tab {
            id,
            key,
            title,
            dir,
            shell,
            startup,
            load_on_open: rt.load_on_open,
            group: opt_owned(group),
            probe,
            kill,
            split: None,
        },
    )
}

/// Resolve the tabs of one section onto the end of `tabs`. On an error `tabs`
/// holds those that came before it.
pub fn resolve_tabs(
    tabs: &mut Vec<Tab>,
    raws: &Vec<RawTab>,
    group: Option<&str>,
    rp: &RawWindow,
    g: &Globals,
) -> (r: Result<(), ResolveError>)
    ensures
        match r {
            Ok(_) => tabs_from(
                tab_views(old(tabs)@),
                raws@.map_values(|t: RawTab| t@),
                0,
                opt_str(group),
                rp@,
                g.scope(),
            ) == Ok::<Seq<TabView>, ResolveErrorView>(tab_views(final(tabs)@)),
            Err(e) => {
                &&& tabs_from(
                    tab_views(old(tabs)@),
                    raws@.map_values(|t: RawTab| t@),
                    0,
                    opt_str(group),
                    rp@,
                    g.scope(),
                ) == Err::<Seq<TabView>, ResolveErrorView>(e@)
                &&& stopped(
                    tab_views(old(tabs)@),
                    raws@.map_values(|t: RawTab| t@),
                    opt_str(group),
                    rp@,
                    g.scope(),
                    tab_views(final(tabs)@),
                )
            },
        },
{
    let ghost rv = raws@.map_values(|t: RawTab| t@);
    let ghost whole = tabs_from(tab_views(tabs@), rv, 0, opt_str(group), rp@, g.scope());
    let ghost tv = tab_views(tabs@);
    let mut i: usize = 0;
    while i < raws.len()
        invariant
            i <= raws.len(),
            rv == raws@.map_values(|t: RawTab| t@),
            tv == tab_views(old(tabs)@),
            tabs_from(tv, rv.take(i as int), 0, opt_str(group), rp@, g.scope()) == Ok::<
                Seq<TabView>,
                ResolveErrorView,
            >(tab_views(tabs@)),
            whole == tabs_from(tab_views(tabs@), rv, i as int, opt_str(group), rp@, g.scope()),
            whole == tabs_from(tab_views(old(tabs)@), rv, 0, opt_str(group), rp@, g.scope()),
        decreases raws.len() - i,
    {
        assert(rv[i as int] == raws@[i as int]@);
        assert(rv.take(i + 1)[i as int] == rv[i as int]);
        proof {
            lemma_one_more_tab(tv, rv, 0, i as int, opt_str(group), rp@, g.scope());
        }
        let ghost here = tab_views(tabs@);
        let t: Tab = match resolve_tab(&raws[i], group, rp, g) {
            Ok(t) => t,
            Err(e) => {
                assert(stopped_at(tv, rv, i as int, opt_str(group), rp@, g.scope(), here));
                return Err(e);
            },
        };
        if key_taken(tabs, t.key.as_str()) {
            assert(stopped_at(tv, rv, i as int, opt_str(group), rp@, g.scope(), here));
            return Err(
                ResolveError::DuplicateTabIdentity {
                    window: rp.title.clone(),
                    identity: t.key.clone(),
                },
            );
        }
        let ghost before = tabs@;
        tabs.push(t);
        assert(tab_views(tabs@) =~= tab_views(before).push(t@));
        assert(tabs_from(tab_views(tabs@), rv.take(i + 1), i + 1, opt_str(group), rp@, g.scope())
            == Ok::<Seq<TabView>, ResolveErrorView>(tab_views(tabs@)));
        i = i + 1;
    }
    Ok(())
}

/// Resolve one written root. A root has no tab level of its own, so its
/// settings cascade from the window and the globals.
pub fn resolve_root(rr: &RawRoot, rp: &RawWindow, g: &Globals) -> (r: Result<Root, ResolveError>)
    ensures
        match r {
            Ok(t) => root_of(rr@, rp@, g.scope()) == Ok::<RootView, ResolveErrorView>(t@),
            Err(e) => root_of(rr@, rp@, g.scope()) == Err::<RootView, ResolveErrorView>(e@),
        },
{
    let dir_str: &str = trim(rr.dir.as_str());
    if dir_str.unicode_len() == 0 {
        return Err(ResolveError::EmptyRootDir { window: rp.title.clone() });
    }
    let dir: String = expand_tilde(dir_str, g.home);
    let name: String = match &rr.name {
        Some(n) => {
            let t: &str = trim(n.as_str());
            if t.unicode_len() == 0 {
                return Err(ResolveError::EmptyRootName { window: rp.title.clone() });
            }
            owned(t)
        },
        None => basename(dir.as_str()),
    };
    let depth: u32 = match rr.depth {
        Some(d) => d,
        None => DEFAULT_ROOT_DEPTH,
    };
    if depth == 0 {
        return Err(ResolveError::InvalidRootDepth { window: rp.title.clone(), depth });
    }
    let shell: String = match cascade(opt_ref(&rr.shell), opt_ref(&rp.shell), opt_ref(&g.raw.shell)) {
        Some(s) => owned(s),
        None => owned(g.default_shell),
    };
    let startup: Option<String> = opt_owned(
        cascade(opt_ref(&rr.cmd), opt_ref(&rp.cmd), opt_ref(&g.raw.cmd)),
    );
    let probe: Option<String> = opt_owned(
        cascade(opt_ref(&rr.probe), opt_ref(&rp.probe), opt_ref(&g.raw.probe)),
    );
    let kill: Option<String> = opt_owned(
        cascade(opt_ref(&rr.kill), opt_ref(&rp.kill), opt_ref(&g.raw.kill)),
    );
    Ok(Root { name, dir, depth, shell, startup, probe, kill, split: None })
}

/// Resolve the tabs of a window: the loose ones, then each group's in file
/// order. Returns them with the names of the groups.
fn resolve_sections(rp: &RawWindow, g: &Globals) -> (r: Result<
    (Vec<Tab>, Vec<String>),
    ResolveError,
>)
    ensures
        match r {
            Ok(p) => sections_of(rp@, g.scope()) == Ok::<Sectioned, ResolveErrorView>(
                Sectioned { tabs: tab_views(p.0@), names: views(p.1@) },
            ),
            Err(e) => sections_of(rp@, g.scope()) == Err::<Sectioned, ResolveErrorView>(e@),
        },
{
    let mut tabs: Vec<Tab> = Vec::new();
    assert(tab_views(tabs@) =~= Seq::empty());
    match resolve_tabs(&mut tabs, &rp.tabs, None, rp, g) {
        Ok(_) => {},
        Err(e) => {
            return Err(e);
        },
    }
    let mut names: Vec<String> = Vec::new();
    assert(views(names@) =~= Seq::empty());
    let ghost gv = rp@.groups;
    let mut i: usize = 0;
    while i < rp.groups.len()
        invariant
            i <= rp.groups.len(),
            gv == rp.groups@.map_values(|x: RawGroup| x@),
            sections_of(rp@, g.scope()) == groups_from(
                Sectioned { tabs: tab_views(tabs@), names: views(names@) },
                gv,
                i as int,
                rp@,
                g.scope(),
            ),
        decreases rp.groups.len() - i,
    {
        assert(gv[i as int] == rp.groups@[i as int]@);
        let name: &str = trim(rp.groups[i].name.as_str());
        if name.unicode_len() == 0 {
            return Err(ResolveError::EmptyGroupName { window: rp.title.clone() });
        }
        if holds(&names, name) {
            return Err(
                ResolveError::DuplicateGroup { window: rp.title.clone(), group: owned(name) },
            );
        }
        match resolve_tabs(&mut tabs, &rp.groups[i].tabs, Some(name), rp, g) {
            Ok(_) => {},
            Err(e) => {
                return Err(e);
            },
        }
        let ghost before = names@;
        names.push(owned(name));
        assert(views(names@) =~= views(before).push(name@));
        i = i + 1;
    }
    Ok((tabs, names))
}

/// Resolve one written window.
pub fn resolve_window(rp: &RawWindow, g: &Globals) -> (r: Result<Window, ResolveError>)
    ensures
        match r {
            Ok(w) => window_of(rp@, g.scope()) == Ok::<WindowView, ResolveErrorView>(w@),
            Err(e) => window_of(rp@, g.scope()) == Err::<WindowView, ResolveErrorView>(e@),
        },
{
    let colour: Colour = match &rp.colour {
        None => default_colour(),
        Some(s) => match Colour::parse(s.as_str()) {
            Ok(c) => c,
            Err(source) => {
                return Err(ResolveError::BadColour { window: rp.title.clone(), source });
            },
        },
    };
    let width: u32 = match rp.width {
        Some(w) => w,
        None => DEFAULT_WIDTH,
    };
    let height: u32 = match rp.height {
        Some(h) => h,
        None => DEFAULT_HEIGHT,
    };
    if width == 0 || height == 0 {
        return Err(ResolveError::InvalidWindowSize { window: rp.title.clone(), width, height });
    }
    let (tabs, mut names) = match resolve_sections(rp, g) {
        Ok(p) => p,
        Err(e) => {
            return Err(e);
        },
    };
    let mut roots: Vec<Root> = Vec::new();
    assert(root_views(roots@) =~= Seq::empty());
    let ghost rv = rp@.roots;
    let ghost whole = roots_from(root_views(roots@), views(names@), rv, 0, rp@, g.scope());
    let mut i: usize = 0;
    while i < rp.roots.len()
        invariant
            i <= rp.roots.len(),
            rv == rp.roots@.map_values(|x: RawRoot| x@),
            whole == roots_from(
                root_views(roots@),
                views(names@),
                rv,
                i as int,
                rp@,
                g.scope(),
            ),
            colour_of(rp@) == Ok::<Colour, ResolveErrorView>(colour),
            width == width_of(rp@),
            height == height_of(rp@),
            width != 0,
            height != 0,
            sections_of(rp@, g.scope()) is Ok,
            tab_views(tabs@) == sections_of(rp@, g.scope())->Ok_0.tabs,
            whole == roots_from(
                Seq::empty(),
                sections_of(rp@, g.scope())->Ok_0.names,
                rv,
                0,
                rp@,
                g.scope(),
            ),
        decreases rp.roots.len() - i,
    {
        assert(rv[i as int] == rp.roots@[i as int]@);
        let root: Root = match resolve_root(&rp.roots[i], rp, g) {
            Ok(x) => x,
            Err(e) => {
                return Err(e);
            },
        };
        if holds(&names, root.name.as_str()) {
            return Err(
                ResolveError::DuplicateSection {
                    window: rp.title.clone(),
                    name: root.name.clone(),
                },
            );
        }
        let ghost names0 = names@;
        let ghost roots0 = roots@;
        names.push(root.name.clone());
        assert(views(names@) =~= views(names0).push(root.name@));
        roots.push(root);
        assert(root_views(roots@) =~= root_views(roots0).push(root@));
        i = i + 1;
    }
    let open_on_start: bool = match rp.open_on_start {
        Some(b) => b,
        None => true,
    };
    Ok(
        Window {
            title: owned(trim(rp.title.as_str())),
            colour,
            width,
            height,
            open_on_start,
            tabs,
            roots,
        },
    )
}

/// Resolve a written configuration for a given home directory, with
/// `default_shell` wherever no `shell` is set.
pub fn resolve_at(raw: &RawConfig, default_shell: &str, home: &Option<String>) -> (r: Result<
    Config,
    ResolveError,
>)
    ensures
        match r {
            Ok(c) => config_of(raw@, default_shell@, opt_view(*home)) == Ok::<
                ConfigView,
                ResolveErrorView,
            >(c@),
            Err(e) => config_of(raw@, default_shell@, opt_view(*home)) == Err::<
                ConfigView,
                ResolveErrorView,
            >(e@),
        },
{
    let g: Globals = Globals { raw, default_shell, home };
    let tab_digit_keys: TabDigitKeys = match resolve_tab_digit_keys(opt_ref(&raw.tab_digit_keys)) {
        Ok(k) => k,
        Err(e) => {
            return Err(e);
        },
    };
    let density: Density = match resolve_density(opt_ref(&raw.density)) {
        Ok(d) => d,
        Err(e) => {
            return Err(e);
        },
    };
    let mut windows: Vec<Window> = Vec::new();
    assert(window_views(windows@) =~= Seq::empty());
    let ghost rv = raw@.windows;
    let ghost whole = windows_from(Seq::empty(), rv, 0, g.scope());
    let mut i: usize = 0;
    while i < raw.windows.len()
        invariant
            i <= raw.windows.len(),
            rv == raw.windows@.map_values(|x: RawWindow| x@),
            g.scope() == scope_of(raw@, default_shell@, opt_view(*home)),
            whole == windows_from(window_views(windows@), rv, i as int, g.scope()),
            whole == windows_from(Seq::empty(), rv, 0, g.scope()),
            rv == raw@.windows,
            digit_keys_of(raw@.tab_digit_keys) == Ok::<TabDigitKeys, ResolveErrorView>(
                tab_digit_keys,
            ),
            density_of(raw@.density) == Ok::<Density, ResolveErrorView>(density),
        decreases raw.windows.len() - i,
    {
        assert(rv[i as int] == raw.windows@[i as int]@);
        let title: &str = trim(raw.windows[i].title.as_str());
        if title.unicode_len() == 0 {
            return Err(ResolveError::EmptyWindowTitle { index: i });
        }
        if title_taken(&windows, title) {
            return Err(ResolveError::DuplicateWindow(owned(title)));
        }
        let w: Window = match resolve_window(&raw.windows[i], &g) {
            Ok(w) => w,
            Err(e) => {
                return Err(e);
            },
        };
        let ghost before = windows@;
        windows.push(w);
        assert(window_views(windows@) =~= window_views(before).push(w@));
        i = i + 1;
    }
    Ok(
        Config {
            windows,
            format_on_save: match raw.format_on_save {
                Some(b) => b,
                None => false,
            },
            tab_digit_keys,
            probe_interval: match raw.probe_interval {
                Some(n) => n,
                None => DEFAULT_PROBE_INTERVAL,
            },
            density,
            sidebar_drag: match raw.sidebar_drag {
                Some(b) => b,
                None => true,
            },
            auto_update: match raw.auto_update {
                Some(b) => b,
                None => true,
            },
            notify_debug: match raw.notify_debug {
                Some(b) => b,
                None => false,
            },
        },
    )
}

/// A directory whose existence is looked at once the configuration is valid.
pub struct DirCheck {
    /// The title of the window as it is written.
    pub window: String,
    pub dir: String,
    /// Whether the directory is that of a root rather than of a tab.
    pub root: bool,
}

pub ghost struct DirCheckView {
    pub window: Seq<char>,
    pub dir: Seq<char>,
    pub root: bool,
}

impl View for DirCheck {
    type V = DirCheckView;

    open spec fn view(&self) -> DirCheckView {
        DirCheckView { window: self.window@, dir: self.dir@, root: self.root }
    }
}

/// The views of a sequence of checks.
pub open spec fn check_views(s: Seq<DirCheck>) -> Seq<DirCheckView> {
    s.map_values(|c: DirCheck| c@)
}

/// The checks of one window written with title `title`: its tabs, then its
/// roots.
pub open spec fn window_checks(title: Seq<char>, w: WindowView) -> Seq<DirCheckView> {
    Seq::new(
        w.tabs.len(),
        |j: int| DirCheckView { window: title, dir: w.tabs[j].dir, root: false },
    ) + Seq::new(
        w.roots.len(),
        |j: int| DirCheckView { window: title, dir: w.roots[j].dir, root: true },
    )
}

/// The checks of the first `n` windows.
pub open spec fn checks_upto(
    raws: Seq<RawWindowView>,
    windows: Seq<WindowView>,
    n: int,
) -> Seq<DirCheckView>
    decreases n,
{
    if n <= 0 {
        Seq::empty()
    } else {
        checks_upto(raws, windows, n - 1) + window_checks(raws[n - 1].title, windows[n - 1])
    }
}

/// Every directory that a configuration names, window by window.
pub open spec fn checks_of(raw: RawConfigView, c: ConfigView) -> Seq<DirCheckView> {
    checks_upto(raw.windows, c.windows, c.windows.len() as int)
}

/// The warning that a missing directory gives.
pub open spec fn warning_of(c: DirCheckView) -> WarningView {
    WarningView {
        window: c.window,
        message: if c.root {
            "root dir does not exist: "@ + c.dir
        } else {
            "dir does not exist: "@ + c.dir
        },
    }
}

/// The warnings for those of `checks` whose directory is not present.
pub open spec fn warnings_of(checks: Seq<DirCheckView>, present: Seq<bool>) -> Seq<WarningView>
    decreases checks.len(),
{
    if checks.len() == 0 {
        Seq::empty()
    } else {
        let before = warnings_of(checks.drop_last(), present);
        if present[checks.len() - 1] {
            before
        } else {
            before.push(warning_of(checks.last()))
        }
    }
}

/// What resolving gives for a home directory and for what was found on disk
/// of the checked directories.
pub open spec fn outcome_at(
    raw: RawConfigView,
    default_shell: Seq<char>,
    home: Option<Seq<char>>,
    present: Seq<bool>,
) -> Result<(ConfigView, Seq<WarningView>), ResolveErrorView> {
    match config_of(raw, default_shell, home) {
        Err(e) => Err(e),
        Ok(c) => Ok((c, warnings_of(checks_of(raw, c), present))),
    }
}

/// The directories that are checked, in order.
pub open spec fn checked_dirs(checks: Seq<DirCheckView>) -> Seq<Seq<char>> {
    checks.map_values(|c: DirCheckView| c.dir)
}

/// Whether looking for `dir` on disk said that it is `there`, or is not.
pub closed spec fn looked_up(dir: Seq<char>, there: bool) -> bool {
    exists|d: &str| d@ == dir && #[trigger] call_ensures(dir_exists, (d,), there)
}

/// Whether looking for `dirs` on disk said of each what `present` says.
pub open spec fn all_looked_up(dirs: Seq<Seq<char>>, present: Seq<bool>) -> bool {
    &&& present.len() == dirs.len()
    &&& forall|i: int| 0 <= i < dirs.len() ==> looked_up(#[trigger] dirs[i], present[i])
}

/// Whether looking for the user's home directory gave `home`.
pub closed spec fn home_found(home: Option<Seq<char>>) -> bool {
    exists|h: Option<String>| opt_view(h) == home && #[trigger] call_ensures(home_dir, (), h)
}

/// Whether resolving may come to `out`: for the home directory that was found,
/// and for what was found of the directories that the configuration names.
pub open spec fn resolves_to(
    raw: RawConfigView,
    default_shell: Seq<char>,
    out: Result<(ConfigView, Seq<WarningView>), ResolveErrorView>,
) -> bool {
    exists|home: Option<Seq<char>>, present: Seq<bool>|
        {
            &&& home_found(home)
            &&& config_of(raw, default_shell, home) matches Ok(c) ==> all_looked_up(
                checked_dirs(checks_of(raw, c)),
                present,
            )
            &&& #[trigger] outcome_at(raw, default_shell, home, present) == out
        }
}

/// The result of [`resolve_with`], seen through its view.
pub open spec fn resolved_view(r: Result<(Config, Vec<Warning>), ResolveError>) -> Result<
    (ConfigView, Seq<WarningView>),
    ResolveErrorView,
> {
    match r {
        Ok(p) => Ok((p.0@, warning_views(p.1@))),
        Err(e) => Err(e@),
    }
}

/// A configuration has as many windows as are written.
proof fn lemma_windows_from_len(
    windows: Seq<WindowView>,
    raws: Seq<RawWindowView>,
    i: int,
    sc: Scope,
)
    requires
        0 <= i <= raws.len(),
        windows_from(windows, raws, i, sc) is Ok,
    ensures
        windows_from(windows, raws, i, sc)->Ok_0.len() == windows.len() + (raws.len() - i),
    decreases raws.len() - i,
{
    if i < raws.len() {
        lemma_windows_from_len(
            windows.push(window_of(raws[i], sc)->Ok_0),
            raws,
            i + 1,
            sc,
        );
    }
}

/// Every directory that a resolved configuration names. `raw` is what the
/// configuration was resolved from.
pub fn dir_checks(raw: &RawConfig, config: &Config) -> (r: Vec<DirCheck>)
    requires
        raw.windows.len() == config.windows.len(),
    ensures
        check_views(r@) == checks_of(raw@, config@),
{
    let mut out: Vec<DirCheck> = Vec::new();
    let ghost rv = raw@.windows;
    let ghost wv = config@.windows;
    assert(check_views(out@) =~= checks_upto(rv, wv, 0));
    let mut i: usize = 0;
    while i < config.windows.len()
        invariant
            i <= config.windows.len() == raw.windows.len(),
            rv == raw.windows@.map_values(|x: RawWindow| x@),
            wv == window_views(config.windows@),
            check_views(out@) == checks_upto(rv, wv, i as int),
        decreases config.windows.len() - i,
    {
        let w: &Window = &config.windows[i];
        let ghost start = out@;
        let ghost title = raw.windows@[i as int].title@;
        let ghost mine = window_checks(title, w@);
        assert(rv[i as int].title == title);
        assert(wv[i as int] == w@);
        let mut j: usize = 0;
        while j < w.tabs.len()
            invariant
                i < raw.windows.len(),
                title == raw.windows@[i as int].title@,
                mine == window_checks(title, w@),
                j <= w.tabs.len(),
                check_views(out@) == check_views(start) + mine.take(j as int),
            decreases w.tabs.len() - j,
        {
            let ghost before = out@;
            out.push(
                DirCheck {
                    window: raw.windows[i].title.clone(),
                    dir: w.tabs[j].dir.clone(),
                    root: false,
                },
            );
            assert(mine[j as int] == out@.last()@);
            assert(check_views(out@) =~= check_views(before).push(out@.last()@));
            j = j + 1;
            assert(check_views(out@) =~= check_views(start) + mine.take(j as int));
        }
        let mut k: usize = 0;
        while k < w.roots.len()
            invariant
                i < raw.windows.len(),
                title == raw.windows@[i as int].title@,
                mine == window_checks(title, w@),
                k <= w.roots.len(),
                check_views(out@) == check_views(start) + mine.take(w.tabs.len() + k),
            decreases w.roots.len() - k,
        {
            let ghost before = out@;
            out.push(
                DirCheck {
                    window: raw.windows[i].title.clone(),
                    dir: w.roots[k].dir.clone(),
                    root: true,
                },
            );
            assert(mine[w.tabs.len() + k] == out@.last()@);
            assert(check_views(out@) =~= check_views(before).push(out@.last()@));
            k = k + 1;
            assert(check_views(out@) =~= check_views(start) + mine.take(w.tabs.len() + k));
        }
        assert(mine.take(mine.len() as int) =~= mine);
        i = i + 1;
    }
    out
}

/// The warning that a missing directory gives.
pub fn missing_dir(c: &DirCheck) -> (r: Warning)
    ensures
        r@ == warning_of(c@),
{
    let prefix: &str = if c.root {
        "root dir does not exist: "
    } else {
        "dir does not exist: "
    };
    let mut message: String = owned(prefix);
    message.append(c.dir.as_str());
    Warning { window: c.window.clone(), message }
}

/// The warnings for those of `checks` whose directory is not `present`.
pub fn missing_dirs(checks: &Vec<DirCheck>, present: &Vec<bool>) -> (r: Vec<Warning>)
    requires
        checks.len() == present.len(),
    ensures
        warning_views(r@) == warnings_of(check_views(checks@), present@),
{
    let mut out: Vec<Warning> = Vec::new();
    let ghost cv = check_views(checks@);
    assert(warning_views(out@) =~= warnings_of(cv.take(0), present@));
    let mut i: usize = 0;
    while i < checks.len()
        invariant
            i <= checks.len() == present.len(),
            cv == check_views(checks@),
            warning_views(out@) == warnings_of(cv.take(i as int), present@),
        decreases checks.len() - i,
    {
        let ghost before = out@;
        assert(cv.take(i + 1).drop_last() =~= cv.take(i as int));
        assert(cv.take(i + 1).last() == checks@[i as int]@);
        if !present[i] {
            out.push(missing_dir(&checks[i]));
            assert(warning_views(out@) =~= warning_views(before).push(out@.last()@));
        }
        i = i + 1;
    }
    assert(cv.take(i as int) =~= cv);
    out
}

/// `dirs::home_dir` finds the home directory of the user, if any. It depends
/// on the environment, so nothing is said of what it is.
#[verifier::external_body]
fn home_dir() -> (r: Option<String>) {
    dirs::home_dir().map(|p| p.to_string_lossy().into_owned())
}

/// `Path::exists` looks at the disk, so nothing is said of the answer.
#[verifier::external_body]
fn dir_exists(path: &str) -> (r: bool) {
    std::path::Path::new(path).exists()
}

/// What `check` says of `dir`.
fn ask_for_dir<C: Fn(&str) -> bool>(check: &C, dir: &str) -> (r: bool)
    requires
        call_requires(check, (dir,)),
    ensures
        call_ensures(check, (dir,), r),
{
    check(dir)
}

/// What `home` says.
fn ask_for_home<H: Fn() -> Option<String>>(home: &H) -> (r: Option<String>)
    requires
        call_requires(home, ()),
    ensures
        call_ensures(home, (), r),
{
    home()
}

/// Look for a directory on disk.
pub(crate) fn look_up(dir: &str) -> (r: bool)
    ensures
        looked_up(dir@, r),
{
    ask_for_dir(&dir_exists, dir)
}

/// Look for the user's home directory.
fn find_home() -> (r: Option<String>)
    ensures
        home_found(opt_view(r)),
{
    ask_for_home(&home_dir)
}

/// Resolve a written configuration against the user's home directory, with
/// `default_shell` wherever no `shell` is set. A directory that does not exist
/// is a warning, never an error.
pub fn resolve_with(raw: RawConfig, default_shell: &str) -> (r: Result<
    (Config, Vec<Warning>),
    ResolveError,
>)
    ensures
        resolves_to(raw@, default_shell@, resolved_view(r)),
{
    let home: Option<String> = find_home();
    let ghost hv = opt_view(home);
    match resolve_at(&raw, default_shell, &home) {
        Err(e) => {
            let r: Result<(Config, Vec<Warning>), ResolveError> = Err(e);
            assert(outcome_at(raw@, default_shell@, hv, Seq::empty()) == resolved_view(r));
            r
        },
        Ok(config) => {
            proof {
                lemma_windows_from_len(
                    Seq::empty(),
                    raw@.windows,
                    0,
                    scope_of(raw@, default_shell@, hv),
                );
            }
            let checks: Vec<DirCheck> = dir_checks(&raw, &config);
            let mut present: Vec<bool> = Vec::new();
            let mut i: usize = 0;
            while i < checks.len()
                invariant
                    i <= checks.len(),
                    present.len() == i,
                    forall|k: int|
                        0 <= k < i ==> looked_up((#[trigger] checks@[k]).dir@, present@[k]),
                decreases checks.len() - i,
            {
                present.push(look_up(checks[i].dir.as_str()));
                i = i + 1;
            }
            proof {
                let dirs = checked_dirs(check_views(checks@));
                assert forall|k: int| 0 <= k < dirs.len() implies looked_up(
                    #[trigger] dirs[k],
                    present@[k],
                ) by {
                    assert(dirs[k] == checks@[k].dir@);
                }
                assert(all_looked_up(dirs, present@));
            }
            let warnings: Vec<Warning> = missing_dirs(&checks, &present);
            let r: Result<(Config, Vec<Warning>), ResolveError> = Ok((config, warnings));
            assert(outcome_at(raw@, default_shell@, hv, present@) == resolved_view(r));
            r
        },
    }
}

/// Resolve with [`DEFAULT_SHELL`] wherever no `shell` is set.
pub fn resolve(raw: RawConfig) -> (r: Result<(Config, Vec<Warning>), ResolveError>)
    ensures
        resolves_to(raw@, DEFAULT_SHELL@, resolved_view(r)),
{
    resolve_with(raw, DEFAULT_SHELL)
}

} // verus!
