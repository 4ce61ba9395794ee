//! The configuration as it is written: every key that may be left out is an
//! option.

use crate::text::opt_view;
use vstd::prelude::*;

verus! {

/// A `[[window.tab]]` or `[[window.group.tab]]`.
#[derive(Debug, Clone, PartialEq)]
pub struct RawTab {
    pub id: Option<String>,
    pub title: Option<String>,
    pub dir: String,
    pub shell: Option<String>,
    pub cmd: Option<String>,
    pub probe: Option<String>,
    pub kill: Option<String>,
    pub load_on_open: bool,
}

pub ghost struct RawTabView {
    pub id: Option<Seq<char>>,
    pub title: Option<Seq<char>>,
    pub dir: Seq<char>,
    pub shell: Option<Seq<char>>,
    pub cmd: Option<Seq<char>>,
    pub probe: Option<Seq<char>>,
    pub kill: Option<Seq<char>>,
    pub load_on_open: bool,
}

impl View for RawTab {
    type V = RawTabView;

    open spec fn view(&self) -> RawTabView {
        RawTabView {
            id: opt_view(self.id),
            title: opt_view(self.title),
            dir: self.dir@,
            shell: opt_view(self.shell),
            cmd: opt_view(self.cmd),
            probe: opt_view(self.probe),
            kill: opt_view(self.kill),
            load_on_open: self.load_on_open,
        }
    }
}

/// A `[[window.group]]`: a named section of tabs.
#[derive(Debug, Clone, PartialEq)]
pub struct RawGroup {
    pub name: String,
    pub tabs: Vec<RawTab>,
}

pub ghost struct RawGroupView {
    pub name: Seq<char>,
    pub tabs: Seq<RawTabView>,
}

impl View for RawGroup {
    type V = RawGroupView;

    open spec fn view(&self) -> RawGroupView {
        RawGroupView { name: self.name@, tabs: self.tabs@.map_values(|t: RawTab| t@) }
    }
}

/// A `[[window.root]]`: a directory to scan for projects.
#[derive(Debug, Clone, PartialEq)]
pub struct RawRoot {
    pub name: Option<String>,
    pub dir: String,
    pub depth: Option<u32>,
    pub shell: Option<String>,
    pub cmd: Option<String>,
    pub probe: Option<String>,
    pub kill: Option<String>,
}

pub ghost struct RawRootView {
    pub name: Option<Seq<char>>,
    pub dir: Seq<char>,
    pub depth: Option<u32>,
    pub shell: Option<Seq<char>>,
    pub cmd: Option<Seq<char>>,
    pub probe: Option<Seq<char>>,
    pub kill: Option<Seq<char>>,
}

impl View for RawRoot {
    type V = RawRootView;

    open spec fn view(&self) -> RawRootView {
        RawRootView {
            name: opt_view(self.name),
            dir: self.dir@,
            depth: self.depth,
            shell: opt_view(self.shell),
            cmd: opt_view(self.cmd),
            probe: opt_view(self.probe),
            kill: opt_view(self.kill),
        }
    }
}

/// A `[[window]]`.
#[derive(Debug, Clone, PartialEq)]
pub struct RawWindow {
    pub title: String,
    pub colour: Option<String>,
    pub width: Option<u32>,
    pub height: Option<u32>,
    pub open_on_start: Option<bool>,
    pub shell: Option<String>,
    pub cmd: Option<String>,
    pub probe: Option<String>,
    pub kill: Option<String>,
    /// The loose tabs, which stand before every section.
    pub tabs: Vec<RawTab>,
    pub groups: Vec<RawGroup>,
    pub roots: Vec<RawRoot>,
}

pub ghost struct RawWindowView {
    pub title: Seq<char>,
    pub colour: Option<Seq<char>>,
    pub width: Option<u32>,
    pub height: Option<u32>,
    pub open_on_start: Option<bool>,
    pub shell: Option<Seq<char>>,
    pub cmd: Option<Seq<char>>,
    pub probe: Option<Seq<char>>,
    pub kill: Option<Seq<char>>,
    pub tabs: Seq<RawTabView>,
    pub groups: Seq<RawGroupView>,
    pub roots: Seq<RawRootView>,
}

impl View for RawWindow {
    type V = RawWindowView;

    open spec fn view(&self) -> RawWindowView {
        RawWindowView {
            title: self.title@,
            colour: opt_view(self.colour),
            width: self.width,
            height: self.height,
            open_on_start: self.open_on_start,
            shell: opt_view(self.shell),
            cmd: opt_view(self.cmd),
            probe: opt_view(self.probe),
            kill: opt_view(self.kill),
            tabs: self.tabs@.map_values(|t: RawTab| t@),
            groups: self.groups@.map_values(|g: RawGroup| g@),
            roots: self.roots@.map_values(|r: RawRoot| r@),
        }
    }
}

/// A whole configuration file.
#[derive(Debug, Clone, PartialEq)]
pub struct RawConfig {
    pub shell: Option<String>,
    pub cmd: Option<String>,
    pub probe: Option<String>,
    pub kill: Option<String>,
    pub probe_interval: Option<u64>,
    pub format_on_save: Option<bool>,
    pub tab_digit_keys: Option<String>,
    pub density: Option<String>,
    pub sidebar_drag: Option<bool>,
    pub auto_update: Option<bool>,
    pub notify_debug: Option<bool>,
    pub windows: Vec<RawWindow>,
}

pub ghost struct RawConfigView {
    pub shell: Option<Seq<char>>,
    pub cmd: Option<Seq<char>>,
    pub probe: Option<Seq<char>>,
    pub kill: Option<Seq<char>>,
    pub probe_interval: Option<u64>,
    pub format_on_save: Option<bool>,
    pub tab_digit_keys: Option<Seq<char>>,
    pub density: Option<Seq<char>>,
    pub sidebar_drag: Option<bool>,
    pub auto_update: Option<bool>,
    pub notify_debug: Option<bool>,
    pub windows: Seq<RawWindowView>,
}

impl View for RawConfig {
    type V = RawConfigView;

    open spec fn view(&self) -> RawConfigView {
        RawConfigView {
            shell: opt_view(self.shell),
            cmd: opt_view(self.cmd),
            probe: opt_view(self.probe),
            kill: opt_view(self.kill),
            probe_interval: self.probe_interval,
            format_on_save: self.format_on_save,
            tab_digit_keys: opt_view(self.tab_digit_keys),
            density: opt_view(self.density),
            sidebar_drag: self.sidebar_drag,
            auto_update: self.auto_update,
            notify_debug: self.notify_debug,
            windows: self.windows@.map_values(|w: RawWindow| w@),
        }
    }
}

} // verus!
