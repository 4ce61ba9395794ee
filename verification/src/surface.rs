//! What a terminal surface is asked to run, and what it reports back.

use crate::model::{copy_split, split_view, Split, SplitView};
use crate::text::{copy_list, copy_opt, opt_view, owned, views};
use vstd::prelude::*;

verus! {

/// An attention signal that a surface raised.
#[derive(Debug, Clone, PartialEq)]
pub enum SurfaceSignal {
    /// The terminal rang its bell.
    Bell,
    /// A desktop-notification escape; either text may be empty.
    Notification { title: String, body: String },
}

/// A signal of one surface, named by its handle.
#[derive(Debug, Clone, PartialEq)]
pub struct SurfaceEvent {
    pub surface_id: usize,
    pub signal: SurfaceSignal,
}

/// Why a surface could not be made.
#[derive(Debug, Clone, Copy, PartialEq, Eq, Structural)]
pub enum SurfaceError {
    /// The shared terminal application could not be created.
    AppCreateFailed,
    /// The surface itself could not be created.
    SurfaceCreateFailed,
}

impl SurfaceError {
    pub open spec fn text(self) -> Seq<char> {
        match self {
            SurfaceError::AppCreateFailed => "libghostty app creation failed"@,
            SurfaceError::SurfaceCreateFailed => "libghostty surface creation failed"@,
        }
    }

    /// The error in words.
    pub fn message(&self) -> (r: String)
        ensures
            r@ == self.text(),
    {
        match self {
            SurfaceError::AppCreateFailed => owned("libghostty app creation failed"),
            SurfaceError::SurfaceCreateFailed => owned("libghostty surface creation failed"),
        }
    }
}

/// What one terminal is and where it is shown.
#[derive(Debug, PartialEq)]
pub struct TabSpec {
    /// The identity of the tab.
    pub id: String,
    pub title: String,
    pub dir: String,
    /// The shell to exec under the terminal.
    pub shell: String,
    /// The command typed into the shell, if any.
    pub startup: Option<String>,
    /// The sidebar section, or `None` for a loose tab.
    pub group: Option<String>,
    pub probe: Option<String>,
    pub kill: Option<String>,
    /// Whether the row belongs to a project-tree section.
    pub tree: bool,
    /// The folders between the section's root and the project.
    pub tree_path: Vec<String>,
    /// The declared second pane, if any.
    pub split: Option<Split>,
}

#[verifier::ext_equal]
pub ghost struct TabSpecView {
    pub id: Seq<char>,
    pub title: Seq<char>,
    pub dir: Seq<char>,
    pub shell: Seq<char>,
    pub startup: Option<Seq<char>>,
    pub group: Option<Seq<char>>,
    pub probe: Option<Seq<char>>,
    pub kill: Option<Seq<char>>,
    pub tree: bool,
    pub tree_path: Seq<Seq<char>>,
    pub split: Option<SplitView>,
}

impl View for TabSpec {
    type V = TabSpecView;

    open spec fn view(&self) -> TabSpecView {
        TabSpecView {
            id: self.id@,
            title: self.title@,
            dir: self.dir@,
            shell: self.shell@,
            startup: opt_view(self.startup),
            group: opt_view(self.group),
            probe: opt_view(self.probe),
            kill: opt_view(self.kill),
            tree: self.tree,
            tree_path: views(self.tree_path@),
            split: split_view(self.split),
        }
    }
}

impl Clone for TabSpec {
    fn clone(&self) -> (r: Self)
        ensures
            r@ == self@,
    {
        TabSpec {
            id: self.id.clone(),
            title: self.title.clone(),
            dir: self.dir.clone(),
            shell: self.shell.clone(),
            startup: copy_opt(&self.startup),
            group: copy_opt(&self.group),
            probe: copy_opt(&self.probe),
            kill: copy_opt(&self.kill),
            tree: self.tree,
            tree_path: copy_list(&self.tree_path),
            split: copy_split(&self.split),
        }
    }
}

} // verus!
