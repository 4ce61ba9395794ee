//! The terminals of one window: which tabs there are, which of their panes
//! have a surface, and what the surfaces are told.

use crate::model::{copy_split, split_view, Split, SplitSide, SplitView};
use crate::presence::Presence;
use crate::reconcile::{TabMeta, TabMetaView};
use crate::resolve::{all_looked_up, look_up, looked_up};
use crate::surface::{SurfaceError, TabSpec, TabSpecView};
use crate::text::{copy_list, copy_opt, opt_view, owned, same, views};
use vstd::prelude::*;

verus! {

/// A rectangle in view coordinates. Each number is the bit pattern of a
/// double, so that rectangles are kept and handed on unchanged.
#[derive(Debug, Clone, Copy, PartialEq, Eq, Structural)]
pub struct PixelRect {
    pub x: u64,
    pub y: u64,
    pub width: u64,
    pub height: u64,
}

/// Which of a tab's panes, of which there are at most two.
#[derive(Debug, Clone, Copy, PartialEq, Eq, Structural)]
pub enum PaneIdx {
    Primary,
    Secondary,
}

impl PaneIdx {
    /// The number of the pane: zero for the primary, one for the secondary.
    pub open spec fn number(self) -> usize {
        match self {
            PaneIdx::Primary => 0,
            PaneIdx::Secondary => 1,
        }
    }

    /// The number by which the chrome names the pane.
    pub fn index(self) -> (r: usize)
        ensures
            r == self.number(),
    {
        match self {
            PaneIdx::Primary => 0,
            PaneIdx::Secondary => 1,
        }
    }

    /// The pane with number `i`; the primary where there is no such pane, so
    /// that no report goes unrouted.
    pub fn from_index(i: usize) -> (r: PaneIdx)
        ensures
            r == (if i == 1 {
                PaneIdx::Secondary
            } else {
                PaneIdx::Primary
            }),
    {
        if i == 1 {
            PaneIdx::Secondary
        } else {
            PaneIdx::Primary
        }
    }
}

/// What stands in a pane.
#[derive(Debug, Clone, Copy, PartialEq, Eq, Structural)]
pub enum TabSlot {
    /// The surface with this handle.
    Spawned(usize),
    /// Nothing yet, or nothing any more.
    Cold,
    /// Nothing here: the surface has moved to a popped-out window.
    Detached,
}

/// One terminal of a tab: what it runs, and its surface.
#[derive(Debug, PartialEq)]
pub struct Pane {
    pub spec: TabSpec,
    pub slot: TabSlot,
}

pub ghost struct PaneView {
    pub spec: TabSpecView,
    pub slot: TabSlot,
}

impl View for Pane {
    type V = PaneView;

    open spec fn view(&self) -> PaneView {
        PaneView { spec: self.spec@, slot: self.slot }
    }
}

impl Clone for Pane {
    fn clone(&self) -> (r: Self)
        ensures
            r@ == self@,
    {
        Pane { spec: self.spec.clone(), slot: self.slot }
    }
}

/// A second pane, if any.
pub open spec fn pane_view(p: Option<Pane>) -> Option<PaneView> {
    match p {
        Some(x) => Some(x@),
        None => None,
    }
}

/// A tab: its primary pane and, when it is split, a second one.
#[derive(Debug, PartialEq)]
pub struct TabEntry {
    pub id: String,
    pub title: String,
    pub primary: Pane,
    pub secondary: Option<Pane>,
    /// Which pane has the keyboard.
    pub focused: PaneIdx,
}

pub ghost struct TabEntryView {
    pub id: Seq<char>,
    pub title: Seq<char>,
    pub primary: PaneView,
    pub secondary: Option<PaneView>,
    pub focused: PaneIdx,
}

impl View for TabEntry {
    type V = TabEntryView;

    open spec fn view(&self) -> TabEntryView {
        TabEntryView {
            id: self.id@,
            title: self.title@,
            primary: self.primary@,
            secondary: pane_view(self.secondary),
            focused: self.focused,
        }
    }
}

impl TabEntryView {
    /// The pane, where there is one.
    pub open spec fn pane(self, which: PaneIdx) -> Option<PaneView> {
        match which {
            PaneIdx::Primary => Some(self.primary),
            PaneIdx::Secondary => self.secondary,
        }
    }

    /// What stands in the pane, where there is one.
    pub open spec fn slot(self, which: PaneIdx) -> Option<TabSlot> {
        match self.pane(which) {
            Some(p) => Some(p.slot),
            None => None,
        }
    }

    /// The tab with `slot` in the pane; unchanged where there is none.
    pub open spec fn with_slot(self, which: PaneIdx, slot: TabSlot) -> TabEntryView {
        match which {
            PaneIdx::Primary => TabEntryView {
                primary: PaneView { slot, ..self.primary },
                ..self
            },
            PaneIdx::Secondary => match self.secondary {
                Some(p) => TabEntryView { secondary: Some(PaneView { slot, ..p }), ..self },
                None => self,
            },
        }
    }

    /// Whether one of the panes has a surface here.
    pub open spec fn is_live(self) -> bool {
        ||| self.primary.slot is Spawned
        ||| (self.secondary matches Some(p) && p.slot is Spawned)
    }
}

impl Clone for TabEntry {
    fn clone(&self) -> (r: Self)
        ensures
            r@ == self@,
    {
        TabEntry {
            id: self.id.clone(),
            title: self.title.clone(),
            primary: self.primary.clone(),
            secondary: match &self.secondary {
                Some(p) => Some(p.clone()),
                None => None,
            },
            focused: self.focused,
        }
    }
}

/// The views of a sequence of tabs.
pub open spec fn entry_views(s: Seq<TabEntry>) -> Seq<TabEntryView> {
    s.map_values(|t: TabEntry| t@)
}

/// What a surface is told to do, by its handle.
#[derive(Debug, PartialEq)]
pub enum SurfaceCmd {
    SetFrame(usize, PixelRect),
    Show(usize),
    Hide(usize),
    Focus(usize),
    /// Type a command into the shell and submit it.
    Run(usize, String),
    /// End the terminal and free the surface.
    Close(usize),
}

pub ghost enum SurfaceCmdView {
    SetFrame(usize, PixelRect),
    Show(usize),
    Hide(usize),
    Focus(usize),
    Run(usize, Seq<char>),
    Close(usize),
}

impl View for SurfaceCmd {
    type V = SurfaceCmdView;

    open spec fn view(&self) -> SurfaceCmdView {
        match self {
            SurfaceCmd::SetFrame(h, r) => SurfaceCmdView::SetFrame(*h, *r),
            SurfaceCmd::Show(h) => SurfaceCmdView::Show(*h),
            SurfaceCmd::Hide(h) => SurfaceCmdView::Hide(*h),
            SurfaceCmd::Focus(h) => SurfaceCmdView::Focus(*h),
            SurfaceCmd::Run(h, c) => SurfaceCmdView::Run(*h, c@),
            SurfaceCmd::Close(h) => SurfaceCmdView::Close(*h),
        }
    }
}

/// The views of a sequence of commands.
pub open spec fn cmd_views(s: Seq<SurfaceCmd>) -> Seq<SurfaceCmdView> {
    s.map_values(|c: SurfaceCmd| c@)
}

/// What came of trying to spawn a surface: its handle, or why there is none.
pub type Outcome = Result<usize, SurfaceError>;

/// The handle of a window, its tabs, which of them is shown, the rectangles
/// their panes have, and the commands to surfaces that are still to be carried
/// out.
#[verifier::ext_equal]
pub ghost struct RegistryView {
    pub window: usize,
    pub tabs: Seq<TabEntryView>,
    pub active: Option<Seq<char>>,
    pub rect: PixelRect,
    pub rect_secondary: PixelRect,
    pub outbox: Seq<SurfaceCmdView>,
}

/// The terminals of one window.
///
/// A surface is known by its handle. Spawning one is left to a function that
/// the caller passes in, which is told what has to end first; what surfaces are
/// told is queued in the outbox, in order, for the caller to carry out.
pub struct Registry {
    window: usize,
    tabs: Vec<TabEntry>,
    active: Option<String>,
    last_rect: PixelRect,
    last_rect_secondary: PixelRect,
    outbox: Vec<SurfaceCmd>,
}

impl View for Registry {
    type V = RegistryView;

    closed spec fn view(&self) -> RegistryView {
        RegistryView {
            window: self.window,
            tabs: entry_views(self.tabs@),
            active: opt_view(self.active),
            rect: self.last_rect,
            rect_secondary: self.last_rect_secondary,
            outbox: cmd_views(self.outbox@),
        }
    }
}

/// The index from `i` on of the first tab with identity `id`; the number of
/// tabs where there is none.
pub open spec fn position_from(tabs: Seq<TabEntryView>, id: Seq<char>, i: int) -> int
    decreases tabs.len() - i,
{
    if i >= tabs.len() {
        tabs.len() as int
    } else if tabs[i].id == id {
        i
    } else {
        position_from(tabs, id, i + 1)
    }
}

/// The index of the first tab with identity `id`; the number of tabs where
/// there is none.
pub open spec fn position(tabs: Seq<TabEntryView>, id: Seq<char>) -> int {
    position_from(tabs, id, 0)
}

/// Whether a tab has identity `id`.
pub open spec fn known(tabs: Seq<TabEntryView>, id: Seq<char>) -> bool {
    position(tabs, id) < tabs.len()
}

/// The first tab with identity `id`.
pub open spec fn tab_at(tabs: Seq<TabEntryView>, id: Seq<char>) -> TabEntryView {
    tabs[position(tabs, id)]
}

/// `tabs` with the first one with identity `id` replaced.
pub open spec fn with_tab(tabs: Seq<TabEntryView>, id: Seq<char>, t: TabEntryView) -> Seq<
    TabEntryView,
> {
    tabs.update(position(tabs, id), t)
}

/// What the second pane of a tab runs: the tab's shell in the tab's directory,
/// with the command of the declared split, under an identity of its own.
pub open spec fn secondary_of(primary: TabSpecView, id: Seq<char>) -> TabSpecView {
    TabSpecView {
        id: id + "::2"@,
        startup: match primary.split {
            Some(s) => s.startup,
            None => None,
        },
        split: None,
        ..primary
    }
}

/// The tab with a second pane, which has no surface yet; unchanged where it
/// has one.
pub open spec fn split_entry(t: TabEntryView, id: Seq<char>) -> TabEntryView {
    if t.secondary is Some {
        t
    } else {
        TabEntryView {
            secondary: Some(
                PaneView { spec: secondary_of(t.primary.spec, id), slot: TabSlot::Cold },
            ),
            ..t
        }
    }
}

/// The registry with tab `id` split.
pub open spec fn split_tab(v: RegistryView, id: Seq<char>) -> RegistryView {
    if known(v.tabs, id) {
        RegistryView { tabs: with_tab(v.tabs, id, split_entry(tab_at(v.tabs, id), id)), ..v }
    } else {
        v
    }
}

/// Closing the surface that stands in a slot, if one does.
pub open spec fn close_cmds(slot: TabSlot) -> Seq<SurfaceCmdView> {
    match slot {
        TabSlot::Spawned(h) => seq![SurfaceCmdView::Close(h)],
        _ => Seq::empty(),
    }
}

/// Closing the surfaces of a tab, the primary first.
pub open spec fn close_entry_cmds(t: TabEntryView) -> Seq<SurfaceCmdView> {
    close_cmds(t.primary.slot) + match t.secondary {
        Some(p) => close_cmds(p.slot),
        None => Seq::empty(),
    }
}

/// The registry after tab `id` lost its second pane.
pub open spec fn secondary_closed(v: RegistryView, id: Seq<char>) -> RegistryView {
    if known(v.tabs, id) && tab_at(v.tabs, id).secondary is Some {
        let t = tab_at(v.tabs, id);
        RegistryView {
            tabs: with_tab(
                v.tabs,
                id,
                TabEntryView { secondary: None, focused: PaneIdx::Primary, ..t },
            ),
            outbox: v.outbox + close_cmds(t.secondary->0.slot),
            ..v
        }
    } else {
        v
    }
}

/// The registry with the keyboard in a pane of tab `id`, where there is such a
/// pane.
pub open spec fn focus_moved(v: RegistryView, id: Seq<char>, which: PaneIdx) -> RegistryView {
    if known(v.tabs, id) && tab_at(v.tabs, id).pane(which) is Some {
        RegistryView {
            tabs: with_tab(
                v.tabs,
                id,
                TabEntryView { focused: which, ..tab_at(v.tabs, id) },
            ),
            ..v
        }
    } else {
        v
    }
}

/// The rectangle that a pane has.
pub open spec fn rect_of(v: RegistryView, which: PaneIdx) -> PixelRect {
    match which {
        PaneIdx::Primary => v.rect,
        PaneIdx::Secondary => v.rect_secondary,
    }
}

/// The surfaces that `cmds` close, in order.
pub open spec fn closings(cmds: Seq<SurfaceCmdView>) -> Seq<usize>
    decreases cmds.len(),
{
    if cmds.len() == 0 {
        Seq::empty()
    } else {
        match cmds.last() {
            SurfaceCmdView::Close(h) => closings(cmds.drop_last()).push(h),
            _ => closings(cmds.drop_last()),
        }
    }
}

/// A surface to be spawned: in which window, what it runs, and where. Those in
/// `ended` end before it starts: closing them is queued.
#[derive(Debug, PartialEq)]
pub struct SpawnRequest {
    pub window: usize,
    pub spec: TabSpec,
    pub rect: PixelRect,
    pub ended: Vec<usize>,
}

pub ghost struct SpawnRequestView {
    pub window: usize,
    pub spec: TabSpecView,
    pub rect: PixelRect,
    pub ended: Seq<usize>,
}

impl View for SpawnRequest {
    type V = SpawnRequestView;

    open spec fn view(&self) -> SpawnRequestView {
        SpawnRequestView {
            window: self.window,
            spec: self.spec@,
            rect: self.rect,
            ended: self.ended@,
        }
    }
}

/// What is asked for where the answer is needed at once. The answer is a
/// handle.
#[derive(Debug, PartialEq)]
pub enum Ask {
    /// Build a window.
    Window { label: String, title: String, width: u32, height: u32 },
    /// Spawn a surface.
    Terminal(SpawnRequest),
}

pub ghost enum AskView {
    Window { label: Seq<char>, title: Seq<char>, width: u32, height: u32 },
    Terminal(SpawnRequestView),
}

impl View for Ask {
    type V = AskView;

    open spec fn view(&self) -> AskView {
        match self {
            Ask::Window { label, title, width, height } => AskView::Window {
                label: label@,
                title: title@,
                width: *width,
                height: *height,
            },
            Ask::Terminal(q) => AskView::Terminal(q@),
        }
    }
}

/// Whether `spawn` can be asked for anything. A surface may fail to spawn; a
/// window that is asked for is built.
pub open spec fn can_ask<F: Fn(&Ask) -> Outcome>(spawn: &F) -> bool {
    &&& forall|a: &Ask| call_requires(spawn, (a,))
    &&& forall|a: &Ask, o: Outcome|
        #[trigger] call_ensures(spawn, (a,), o) && a@ is Window ==> o is Ok
}

/// The surface that a pane of the tab at `i` needs: one for a pane without
/// any, and for a second pane only while the first has its surface here.
pub open spec fn request_at(v: RegistryView, i: int, which: PaneIdx) -> Option<SpawnRequestView> {
    let t = v.tabs[i];
    match t.pane(which) {
        Some(p) => if p.slot is Cold && (which is Primary || t.primary.slot is Spawned) {
            Some(
                SpawnRequestView {
                    window: v.window,
                    spec: p.spec,
                    rect: rect_of(v, which),
                    ended: closings(v.outbox),
                },
            )
        } else {
            None
        },
        None => None,
    }
}

/// The registry after the spawn that a pane of the tab at `i` needed, if any,
/// came out as `o`: a failed one changes nothing.
pub open spec fn settled_at(v: RegistryView, i: int, which: PaneIdx, o: Outcome) -> RegistryView {
    match (request_at(v, i, which), o) {
        (Some(_), Ok(h)) => RegistryView {
            tabs: v.tabs.update(i, v.tabs[i].with_slot(which, TabSlot::Spawned(h))),
            ..v
        },
        _ => v,
    }
}

/// Bringing both panes of the tab at `i` live, the primary with outcome `p`
/// and the second with outcome `s`.
pub open spec fn live_at(v: RegistryView, i: int, p: Outcome, s: Outcome) -> RegistryView {
    settled_at(settled_at(v, i, PaneIdx::Primary, p), i, PaneIdx::Secondary, s)
}

/// Whether `spawn` may answer `req` with `o`.
pub open spec fn answers<F: Fn(&Ask) -> Outcome>(
    spawn: &F,
    req: Option<SpawnRequestView>,
    o: Outcome,
) -> bool {
    req matches Some(r) ==> exists|a: &Ask|
        a@ == AskView::Terminal(r) && #[trigger] call_ensures(spawn, (a,), o)
}

/// Whether `spawn` may answer with `p` and `s` where both panes of the tab at
/// `i` are brought live.
pub open spec fn answers_at<F: Fn(&Ask) -> Outcome>(
    spawn: &F,
    v: RegistryView,
    i: int,
    p: Outcome,
    s: Outcome,
) -> bool {
    &&& answers(spawn, request_at(v, i, PaneIdx::Primary), p)
    &&& answers(
        spawn,
        request_at(settled_at(v, i, PaneIdx::Primary, p), i, PaneIdx::Secondary),
        s,
    )
}

/// What showing one pane takes: its rectangle, showing it, and the keyboard if
/// it is the focused one.
pub open spec fn show_cmds(slot: TabSlot, rect: PixelRect, focus: bool) -> Seq<SurfaceCmdView> {
    match slot {
        TabSlot::Spawned(h) => seq![
            SurfaceCmdView::SetFrame(h, rect),
            SurfaceCmdView::Show(h),
        ] + (if focus {
            seq![SurfaceCmdView::Focus(h)]
        } else {
            Seq::empty()
        }),
        _ => Seq::empty(),
    }
}

/// What hiding one pane takes.
pub open spec fn hide_cmds(slot: TabSlot) -> Seq<SurfaceCmdView> {
    match slot {
        TabSlot::Spawned(h) => seq![SurfaceCmdView::Hide(h)],
        _ => Seq::empty(),
    }
}

/// Showing a tab's panes, or hiding them.
pub open spec fn display_entry(v: RegistryView, t: TabEntryView, shown: bool) -> Seq<
    SurfaceCmdView,
> {
    if shown {
        show_cmds(t.primary.slot, v.rect, t.focused is Primary) + match t.secondary {
            Some(p) => show_cmds(p.slot, v.rect_secondary, t.focused is Secondary),
            None => Seq::empty(),
        }
    } else {
        hide_cmds(t.primary.slot) + match t.secondary {
            Some(p) => hide_cmds(p.slot),
            None => Seq::empty(),
        }
    }
}

/// Showing the tab at `i` and hiding the others, for the first `n` tabs.
pub open spec fn display_cmds(v: RegistryView, i: int, n: int) -> Seq<SurfaceCmdView>
    decreases n,
{
    if n <= 0 {
        Seq::empty()
    } else {
        display_cmds(v, i, n - 1) + display_entry(v, v.tabs[n - 1], n - 1 == i)
    }
}

/// The registry with the tab at `i`, which has identity `id`, on screen.
pub open spec fn shown_at(v: RegistryView, i: int, id: Seq<char>) -> RegistryView {
    RegistryView {
        active: Some(id),
        outbox: v.outbox + display_cmds(v, i, v.tabs.len() as int),
        ..v
    }
}

/// The registry after tab `id` was activated, with the outcomes of the spawns
/// that this took.
pub open spec fn activated(v: RegistryView, id: Seq<char>, p: Outcome, s: Outcome) -> RegistryView {
    if known(v.tabs, id) {
        let i = position(v.tabs, id);
        shown_at(live_at(v, i, p, s), i, id)
    } else {
        v
    }
}

/// What bringing the tab at `i` live reports: whether its primary pane was
/// spawned just now, or why it could not be.
pub open spec fn spawn_report(v: RegistryView, i: int, p: Outcome) -> Result<bool, SurfaceError> {
    match request_at(v, i, PaneIdx::Primary) {
        Some(_) => match p {
            Ok(_) => Ok(true),
            Err(e) => Err(e),
        },
        None => Ok(false),
    }
}

/// What activating tab `id` reports.
pub open spec fn activate_report(v: RegistryView, id: Seq<char>, p: Outcome) -> Result<
    bool,
    SurfaceError,
> {
    if known(v.tabs, id) {
        spawn_report(v, position(v.tabs, id), p)
    } else {
        Ok(false)
    }
}

/// Whether `spawn` may answer with `p` and `s` where tab `id` is activated.
pub open spec fn activates<F: Fn(&Ask) -> Outcome>(
    spawn: &F,
    v: RegistryView,
    id: Seq<char>,
    p: Outcome,
    s: Outcome,
) -> bool {
    known(v.tabs, id) ==> answers_at(spawn, v, position(v.tabs, id), p, s)
}

/// The tab that `add` appends: with a surface where one was asked for and made.
pub open spec fn new_entry(spec: TabSpecView, load: bool, p: Outcome) -> TabEntryView {
    TabEntryView {
        id: spec.id,
        title: spec.title,
        primary: PaneView {
            spec,
            slot: match p {
                Ok(h) => if load {
                    TabSlot::Spawned(h)
                } else {
                    TabSlot::Cold
                },
                Err(_) => TabSlot::Cold,
            },
        },
        secondary: None,
        focused: PaneIdx::Primary,
    }
}

/// The registry with a tab appended and its declared split, if any, in place;
/// its second pane has no surface yet.
pub open spec fn appended(v: RegistryView, spec: TabSpecView, load: bool, p: Outcome) -> RegistryView {
    let t = new_entry(spec, load, p);
    let pushed = RegistryView {
        tabs: v.tabs.push(t),
        outbox: v.outbox + hide_cmds(t.primary.slot),
        ..v
    };
    if spec.split is Some {
        split_tab(pushed, spec.id)
    } else {
        pushed
    }
}

/// The surface that the second pane of a freshly appended tab needs.
pub open spec fn appended_request(v: RegistryView, spec: TabSpecView, load: bool, p: Outcome) -> Option<
    SpawnRequestView,
> {
    let a = appended(v, spec, load, p);
    if spec.split is Some {
        request_at(a, v.tabs.len() as int, PaneIdx::Secondary)
    } else {
        None
    }
}

/// The registry after `add`.
pub open spec fn added(
    v: RegistryView,
    spec: TabSpecView,
    load: bool,
    p: Outcome,
    s: Outcome,
) -> RegistryView {
    let a = appended(v, spec, load, p);
    match (appended_request(v, spec, load, p), s) {
        (Some(_), Ok(h)) => RegistryView {
            outbox: a.outbox.push(SurfaceCmdView::Hide(h)),
            ..settled_at(a, v.tabs.len() as int, PaneIdx::Secondary, s)
        },
        _ => a,
    }
}

/// The slot after its surface, if it has one here, was closed.
pub open spec fn unloaded_slot(slot: TabSlot) -> TabSlot {
    match slot {
        TabSlot::Spawned(_) => TabSlot::Cold,
        TabSlot::Cold => TabSlot::Cold,
        TabSlot::Detached => TabSlot::Detached,
    }
}

/// The tab after its surfaces were closed: a declared split that was closed by
/// hand comes back.
pub open spec fn unloaded_entry(t: TabEntryView, id: Seq<char>) -> TabEntryView {
    let cold = TabEntryView {
        primary: PaneView { slot: unloaded_slot(t.primary.slot), ..t.primary },
        secondary: match t.secondary {
            Some(p) => Some(PaneView { slot: unloaded_slot(p.slot), ..p }),
            None => None,
        },
        ..t
    };
    if cold.secondary is None && cold.primary.spec.split is Some {
        split_entry(cold, id)
    } else {
        cold
    }
}

/// The registry with the surfaces of tab `id` closed, before the sidebar leans
/// anywhere.
pub open spec fn surfaces_closed(v: RegistryView, id: Seq<char>) -> RegistryView {
    if known(v.tabs, id) {
        RegistryView {
            tabs: with_tab(v.tabs, id, unloaded_entry(tab_at(v.tabs, id), id)),
            outbox: v.outbox + close_entry_cmds(tab_at(v.tabs, id)),
            ..v
        }
    } else {
        v
    }
}

/// The slot after a popped-out surface ended.
pub open spec fn cleared_slot(slot: TabSlot) -> TabSlot {
    match slot {
        TabSlot::Detached => TabSlot::Cold,
        _ => slot,
    }
}

/// The tab after its popped-out surfaces ended.
pub open spec fn cleared_entry(t: TabEntryView) -> TabEntryView {
    TabEntryView {
        primary: PaneView { slot: cleared_slot(t.primary.slot), ..t.primary },
        secondary: match t.secondary {
            Some(p) => Some(PaneView { slot: cleared_slot(p.slot), ..p }),
            None => None,
        },
        ..t
    }
}

/// Whether one of the tab's panes stands for a popped-out surface.
pub open spec fn any_detached(t: TabEntryView) -> bool {
    t.primary.slot is Detached || t.slot(PaneIdx::Secondary) == Some(TabSlot::Detached)
}

/// The registry with the popped-out surfaces of tab `id` gone, before the
/// sidebar leans anywhere.
pub open spec fn placeholders_cleared(v: RegistryView, id: Seq<char>) -> RegistryView {
    if known(v.tabs, id) {
        RegistryView {
            tabs: with_tab(v.tabs, id, cleared_entry(tab_at(v.tabs, id))),
            ..v
        }
    } else {
        v
    }
}

/// The first live tab from `i` on; the number of tabs where there is none.
pub open spec fn live_after(live: Seq<bool>, i: int) -> int
    decreases live.len() - i,
{
    if i >= live.len() {
        live.len() as int
    } else if live[i] {
        i
    } else {
        live_after(live, i + 1)
    }
}

/// The last live tab before `i`, if any.
pub open spec fn live_before(live: Seq<bool>, i: int) -> Option<int>
    decreases i,
{
    if i <= 0 {
        None
    } else if live[i - 1] {
        Some(i - 1)
    } else {
        live_before(live, i - 1)
    }
}

/// The live tab nearest to `i`: the next one after it, or else the last one
/// before it.
pub open spec fn live_neighbour(live: Seq<bool>, i: int) -> Option<int> {
    if live_after(live, i + 1) < live.len() {
        Some(live_after(live, i + 1))
    } else {
        live_before(live, i)
    }
}

/// Which tabs have a surface here.
pub open spec fn liveness(tabs: Seq<TabEntryView>) -> Seq<bool> {
    tabs.map_values(|t: TabEntryView| t.is_live())
}

/// The identity of the tab that the sidebar leans to when the one at `i` lost
/// its terminal.
pub open spec fn lean_target(v: RegistryView, i: int) -> Option<Seq<char>> {
    match live_neighbour(liveness(v.tabs), i) {
        Some(n) => Some(v.tabs[n].id),
        None => None,
    }
}

/// The registry after the active tab at `i` lost its terminal: a live
/// neighbour is activated, or nothing is shown.
pub open spec fn leaned(v: RegistryView, i: int, p: Outcome, s: Outcome) -> RegistryView {
    let blank = RegistryView { active: None, ..v };
    match lean_target(v, i) {
        Some(id) => activated(blank, id, p, s),
        None => blank,
    }
}

/// Whether `spawn` may answer with `p` and `s` where the sidebar leans.
pub open spec fn leans<F: Fn(&Ask) -> Outcome>(
    spawn: &F,
    v: RegistryView,
    i: int,
    p: Outcome,
    s: Outcome,
) -> bool {
    lean_target(v, i) matches Some(id) ==> activates(
        spawn,
        RegistryView { active: None, ..v },
        id,
        p,
        s,
    )
}

/// Whether unloading tab `id` makes the sidebar lean.
pub open spec fn unload_leans(v: RegistryView, id: Seq<char>) -> bool {
    known(v.tabs, id) && tab_at(v.tabs, id).is_live() && v.active == Some(id)
}

/// Whether clearing tab `id`'s placeholders makes the sidebar lean.
pub open spec fn clear_leans(v: RegistryView, id: Seq<char>) -> bool {
    known(v.tabs, id) && any_detached(tab_at(v.tabs, id)) && v.active == Some(id)
}

/// Whether activating tab `id` may lead from `v` to `w` and report `r`.
pub open spec fn activation<F: Fn(&Ask) -> Outcome>(
    spawn: &F,
    v: RegistryView,
    id: Seq<char>,
    w: RegistryView,
    r: Result<bool, SurfaceError>,
) -> bool {
    exists|p: Outcome, s: Outcome|
        {
            &&& activates(spawn, v, id, p, s)
            &&& w == #[trigger] activated(v, id, p, s)
            &&& r == activate_report(v, id, p)
        }
}

/// Whether adding a tab may lead from `v` to `w` and report `r`.
pub open spec fn adding<F: Fn(&Ask) -> Outcome>(
    spawn: &F,
    v: RegistryView,
    spec: TabSpecView,
    load: bool,
    w: RegistryView,
    r: Result<(), SurfaceError>,
) -> bool {
    exists|p: Outcome, s: Outcome|
        {
            &&& load ==> answers(
                spawn,
                Some(
                    SpawnRequestView {
                        window: v.window,
                        spec,
                        rect: v.rect,
                        ended: closings(v.outbox),
                    },
                ),
                p,
            )
            &&& answers(spawn, appended_request(v, spec, load, p), s)
            &&& w == #[trigger] added(v, spec, load, p, s)
            &&& r == match p {
                Ok(_) => Ok::<(), SurfaceError>(()),
                Err(e) => if load {
                    Err(e)
                } else {
                    Ok::<(), SurfaceError>(())
                },
            }
        }
}

/// Whether bringing tab `id` live may lead from `v` to `w` and report `r`.
pub open spec fn spawning<F: Fn(&Ask) -> Outcome>(
    spawn: &F,
    v: RegistryView,
    id: Seq<char>,
    w: RegistryView,
    r: Result<(), SurfaceError>,
) -> bool {
    exists|p: Outcome, s: Outcome|
        {
            &&& #[trigger] activates(spawn, v, id, p, s)
            &&& w == (if known(v.tabs, id) {
                live_at(v, position(v.tabs, id), p, s)
            } else {
                v
            })
            &&& r == match activate_report(v, id, p) {
                Ok(_) => Ok::<(), SurfaceError>(()),
                Err(e) => Err(e),
            }
        }
}

/// Whether leaning away from the tab at `i` may lead from `v` to `w`.
pub open spec fn leaning<F: Fn(&Ask) -> Outcome>(
    spawn: &F,
    v: RegistryView,
    i: int,
    w: RegistryView,
) -> bool {
    exists|p: Outcome, s: Outcome|
        leans(spawn, v, i, p, s) && w == #[trigger] leaned(v, i, p, s)
}

/// Whether unloading tab `id` may lead from `v` to `w` and name the tab `r` as
/// the one that is shown in its place.
pub open spec fn unloading<F: Fn(&Ask) -> Outcome>(
    spawn: &F,
    v: RegistryView,
    id: Seq<char>,
    w: RegistryView,
    r: Option<Seq<char>>,
) -> bool {
    let closed = surfaces_closed(v, id);
    let i = position(v.tabs, id);
    if unload_leans(v, id) {
        leaning(spawn, closed, i, w) && r == lean_target(closed, i)
    } else {
        w == closed && r is None
    }
}

/// Whether giving up on tab `id`'s popped-out surfaces may lead from `v` to
/// `w` and name the tab `r` as the one that is shown in its place.
pub open spec fn clearing<F: Fn(&Ask) -> Outcome>(
    spawn: &F,
    v: RegistryView,
    id: Seq<char>,
    w: RegistryView,
    r: Option<Seq<char>>,
) -> bool {
    let cleared = placeholders_cleared(v, id);
    let i = position(v.tabs, id);
    if clear_leans(v, id) {
        leaning(spawn, cleared, i, w) && r == lean_target(cleared, i)
    } else {
        w == cleared && r is None
    }
}

/// Whether tab `id` is popped out.
pub open spec fn popped_out(tabs: Seq<TabEntryView>, id: Seq<char>) -> bool {
    exists|i: int|
        0 <= i < tabs.len() && (#[trigger] tabs[i]).id == id && tabs[i].primary.slot is Detached
}

/// Whether tab `id` has a probe command.
pub open spec fn has_probe(tabs: Seq<TabEntryView>, id: Seq<char>) -> bool {
    exists|i: int|
        0 <= i < tabs.len() && (#[trigger] tabs[i]).id == id && tabs[i].primary.spec.probe is Some
}

/// The surfaces that tab `id` gives up when it is popped out.
pub open spec fn detachable(v: RegistryView, id: Seq<char>) -> Option<(usize, Option<usize>)> {
    if known(v.tabs, id) {
        match tab_at(v.tabs, id).primary.slot {
            TabSlot::Spawned(h) => Some(
                (
                    h,
                    match tab_at(v.tabs, id).slot(PaneIdx::Secondary) {
                        Some(TabSlot::Spawned(s)) => Some(s),
                        _ => None,
                    },
                ),
            ),
            _ => None,
        }
    } else {
        None
    }
}

/// The slot after its surface, if it has one here, moved out.
pub open spec fn detached_slot(slot: TabSlot) -> TabSlot {
    match slot {
        TabSlot::Spawned(_) => TabSlot::Detached,
        _ => slot,
    }
}

/// The registry after tab `id` was popped out.
pub open spec fn detached(v: RegistryView, id: Seq<char>) -> RegistryView {
    if detachable(v, id) is Some {
        let t = tab_at(v.tabs, id);
        RegistryView {
            tabs: with_tab(
                v.tabs,
                id,
                TabEntryView {
                    primary: PaneView { slot: detached_slot(t.primary.slot), ..t.primary },
                    secondary: match t.secondary {
                        Some(p) => Some(PaneView { slot: detached_slot(p.slot), ..p }),
                        None => None,
                    },
                    ..t
                },
            ),
            ..v
        }
    } else {
        v
    }
}

/// Whether tab `id` can take the surfaces back.
pub open spec fn attachable(v: RegistryView, id: Seq<char>, secondary: Option<usize>) -> bool {
    &&& known(v.tabs, id)
    &&& !(tab_at(v.tabs, id).primary.slot is Spawned)
    &&& secondary is Some ==> !(tab_at(v.tabs, id).secondary matches Some(p) && p.slot is Spawned)
}

/// The registry after tab `id` took the surfaces back.
pub open spec fn attached(
    v: RegistryView,
    id: Seq<char>,
    primary: usize,
    secondary: Option<usize>,
) -> RegistryView {
    let t = tab_at(v.tabs, id);
    let home = t.with_slot(PaneIdx::Primary, TabSlot::Spawned(primary));
    let back = match secondary {
        Some(s) => split_entry(home, id).with_slot(PaneIdx::Secondary, TabSlot::Spawned(s)),
        None => if t.slot(PaneIdx::Secondary) == Some(TabSlot::Detached) {
            TabEntryView { secondary: None, focused: PaneIdx::Primary, ..home }
        } else {
            home
        },
    };
    RegistryView { tabs: with_tab(v.tabs, id, back), ..v }
}

/// The registry after a pane's rectangle was reported.
pub open spec fn framed(v: RegistryView, which: PaneIdx, rect: PixelRect) -> RegistryView {
    let kept = match which {
        PaneIdx::Primary => RegistryView { rect, ..v },
        PaneIdx::Secondary => RegistryView { rect_secondary: rect, ..v },
    };
    match v.active {
        Some(a) => if known(v.tabs, a) {
            match tab_at(v.tabs, a).slot(which) {
                Some(TabSlot::Spawned(h)) => RegistryView {
                    outbox: v.outbox.push(SurfaceCmdView::SetFrame(h, rect)),
                    ..kept
                },
                _ => kept,
            }
        } else {
            kept
        },
        None => kept,
    }
}

/// The registry without tab `id`.
pub open spec fn removed(v: RegistryView, id: Seq<char>) -> RegistryView {
    if known(v.tabs, id) {
        RegistryView {
            tabs: v.tabs.remove(position(v.tabs, id)),
            active: if v.active == Some(id) {
                None
            } else {
                v.active
            },
            outbox: v.outbox + close_entry_cmds(tab_at(v.tabs, id)),
            ..v
        }
    } else {
        v
    }
}

/// The index from `k` on of `id` in `order`; the length of `order` where it is
/// not in it.
pub open spec fn rank_from(order: Seq<Seq<char>>, id: Seq<char>, k: int) -> int
    decreases order.len() - k,
{
    if k >= order.len() {
        order.len() as int
    } else if order[k] == id {
        k
    } else {
        rank_from(order, id, k + 1)
    }
}

/// Where `order` places `id`: after everything it names where it does not name
/// `id`.
pub open spec fn rank(order: Seq<Seq<char>>, id: Seq<char>) -> int {
    rank_from(order, id, 0)
}

/// Those of `tabs` that `order` places at `k`, as they stand.
pub open spec fn ranked(tabs: Seq<TabEntryView>, order: Seq<Seq<char>>, k: int) -> Seq<TabEntryView>
    decreases tabs.len(),
{
    if tabs.len() == 0 {
        Seq::empty()
    } else if rank(order, tabs.last().id) == k {
        ranked(tabs.drop_last(), order, k).push(tabs.last())
    } else {
        ranked(tabs.drop_last(), order, k)
    }
}

/// Those of `tabs` that `order` places before `k`, place by place.
pub open spec fn ranked_upto(tabs: Seq<TabEntryView>, order: Seq<Seq<char>>, k: int) -> Seq<
    TabEntryView,
>
    decreases k,
{
    if k <= 0 {
        Seq::empty()
    } else {
        ranked_upto(tabs, order, k - 1) + ranked(tabs, order, k - 1)
    }
}

/// The registry with its tabs in the given order; those it does not name keep
/// their order, after the others.
pub open spec fn reordered(v: RegistryView, order: Seq<Seq<char>>) -> RegistryView {
    RegistryView { tabs: ranked_upto(v.tabs, order, order.len() as int + 1), ..v }
}

/// Closing the surfaces of the first `n` tabs.
pub open spec fn close_all_cmds(tabs: Seq<TabEntryView>, n: int) -> Seq<SurfaceCmdView>
    decreases n,
{
    if n <= 0 {
        Seq::empty()
    } else {
        close_all_cmds(tabs, n - 1) + close_entry_cmds(tabs[n - 1])
    }
}

/// The registry with everything closed.
pub open spec fn emptied(v: RegistryView) -> RegistryView {
    RegistryView {
        tabs: Seq::empty(),
        active: None,
        outbox: v.outbox + close_all_cmds(v.tabs, v.tabs.len() as int),
        ..v
    }
}

/// The registry after new metadata was applied to tab `id`: nothing of its
/// terminals changes.
pub open spec fn with_meta(
    v: RegistryView,
    id: Seq<char>,
    meta: TabMetaView,
    tree: bool,
    tree_path: Seq<Seq<char>>,
) -> RegistryView {
    if known(v.tabs, id) {
        let t = tab_at(v.tabs, id);
        RegistryView {
            tabs: with_tab(
                v.tabs,
                id,
                TabEntryView {
                    title: meta.title,
                    primary: PaneView {
                        spec: TabSpecView {
                            title: meta.title,
                            group: meta.group,
                            probe: meta.probe,
                            kill: meta.kill,
                            split: meta.split,
                            tree,
                            tree_path,
                            ..t.primary.spec
                        },
                        ..t.primary
                    },
                    ..t
                },
            ),
            ..v
        }
    } else {
        v
    }
}

/// What typing tab `id`'s startup command again takes: nothing, unless the tab
/// has one and its primary pane has its surface here.
pub open spec fn start_cmds(v: RegistryView, id: Seq<char>) -> Seq<SurfaceCmdView> {
    if known(v.tabs, id) {
        match (tab_at(v.tabs, id).primary.spec.startup, tab_at(v.tabs, id).primary.slot) {
            (Some(cmd), TabSlot::Spawned(h)) => seq![SurfaceCmdView::Run(h, cmd)],
            _ => Seq::empty(),
        }
    } else {
        Seq::empty()
    }
}

/// The first pane from tab `i` on that holds the surface `h`.
pub open spec fn located_from(tabs: Seq<TabEntryView>, h: usize, i: int) -> Option<
    (Seq<char>, PaneIdx),
>
    decreases tabs.len() - i,
{
    if i >= tabs.len() {
        None
    } else if tabs[i].primary.slot == TabSlot::Spawned(h) {
        Some((tabs[i].id, PaneIdx::Primary))
    } else if tabs[i].slot(PaneIdx::Secondary) == Some(TabSlot::Spawned(h)) {
        Some((tabs[i].id, PaneIdx::Secondary))
    } else {
        located_from(tabs, h, i + 1)
    }
}

/// The pane that holds the surface `h`.
pub open spec fn located(tabs: Seq<TabEntryView>, h: usize) -> Option<(Seq<char>, PaneIdx)> {
    located_from(tabs, h, 0)
}

proof fn lemma_position_from(tabs: Seq<TabEntryView>, id: Seq<char>, i: int)
    requires
        0 <= i <= tabs.len(),
    ensures
        i <= position_from(tabs, id, i) <= tabs.len(),
        position_from(tabs, id, i) < tabs.len() ==> tabs[position_from(tabs, id, i)].id == id,
        forall|k: int| i <= k < position_from(tabs, id, i) ==> (#[trigger] tabs[k]).id != id,
    decreases tabs.len() - i,
{
    if i < tabs.len() {
        lemma_position_from(tabs, id, i + 1);
    }
}

/// Where a tab stands: it has the identity, and none before it has.
pub proof fn lemma_position(tabs: Seq<TabEntryView>, id: Seq<char>)
    ensures
        0 <= position(tabs, id) <= tabs.len(),
        known(tabs, id) ==> tab_at(tabs, id).id == id,
        forall|k: int| 0 <= k < position(tabs, id) ==> (#[trigger] tabs[k]).id != id,
{
    lemma_position_from(tabs, id, 0);
}

impl Registry {
    /// A registry without tabs for the window with handle `window`, with the
    /// rectangle that both panes start from.
    pub fn new(window: usize, initial_rect: PixelRect) -> (r: Registry)
        ensures
            r@ == (RegistryView {
                window,
                tabs: Seq::empty(),
                active: None,
                rect: initial_rect,
                rect_secondary: initial_rect,
                outbox: Seq::empty(),
            }),
    {
        let r = Registry {
            window,
            tabs: Vec::new(),
            active: None,
            last_rect: initial_rect,
            last_rect_secondary: initial_rect,
            outbox: Vec::new(),
        };
        assert(r@.tabs =~= Seq::empty());
        assert(r@.outbox =~= Seq::empty());
        r
    }

    /// The index of tab `id`.
    fn position(&self, id: &str) -> (r: Option<usize>)
        ensures
            match r {
                Some(i) => i == position(self@.tabs, id@) && i < self@.tabs.len(),
                None => !known(self@.tabs, id@),
            },
            self@.tabs.len() == self.tabs@.len(),
    {
        let mut i: usize = 0;
        while i < self.tabs.len()
            invariant
                i <= self.tabs.len(),
                self@.tabs == entry_views(self.tabs@),
                position(self@.tabs, id@) == position_from(self@.tabs, id@, i as int),
            decreases self.tabs.len() - i,
        {
            assert(self@.tabs[i as int] == self.tabs@[i as int]@);
            if same(self.tabs[i].id.as_str(), id) {
                return Some(i);
            }
            i = i + 1;
        }
        None
    }

    fn put_slot(&mut self, i: usize, which: PaneIdx, slot: TabSlot)
        requires
            i < old(self)@.tabs.len(),
        ensures
            final(self)@ == (RegistryView {
                tabs: old(self)@.tabs.update(
                    i as int,
                    old(self)@.tabs[i as int].with_slot(which, slot),
                ),
                ..old(self)@
            }),
    {
        match which {
            PaneIdx::Primary => {
                self.tabs[i].primary.slot = slot;
            },
            PaneIdx::Secondary => {
                match &mut self.tabs[i].secondary {
                    Some(p) => {
                        p.slot = slot;
                    },
                    None => {},
                }
            },
        }
        assert(self@.tabs =~= old(self)@.tabs.update(
            i as int,
            old(self)@.tabs[i as int].with_slot(which, slot),
        ));
    }

    fn send(&mut self, c: SurfaceCmd)
        ensures
            final(self)@ == (RegistryView { outbox: old(self)@.outbox.push(c@), ..old(self)@ }),
    {
        self.outbox.push(c);
        assert(self@.outbox =~= old(self)@.outbox.push(c@));
    }

    /// The commands to surfaces that are still to be carried out, in order.
    /// None are left behind.
    pub fn take_commands(&mut self) -> (r: Vec<SurfaceCmd>)
        ensures
            cmd_views(r@) == old(self)@.outbox,
            final(self)@ == (RegistryView { outbox: Seq::empty(), ..old(self)@ }),
    {
        let mut out: Vec<SurfaceCmd> = Vec::new();
        core::mem::swap(&mut out, &mut self.outbox);
        assert(self@.outbox =~= Seq::empty());
        out
    }

    /// The rectangle that a pane has.
    pub fn rect_for(&self, which: PaneIdx) -> (r: PixelRect)
        ensures
            r == rect_of(self@, which),
    {
        match which {
            PaneIdx::Primary => self.last_rect,
            PaneIdx::Secondary => self.last_rect_secondary,
        }
    }

    /// The surfaces whose closing is queued, in order.
    fn ended(&self) -> (r: Vec<usize>)
        ensures
            r@ == closings(self@.outbox),
    {
        let ghost cs = self@.outbox;
        let mut out: Vec<usize> = Vec::new();
        let mut i: usize = 0;
        assert(out@ =~= closings(cs.take(0)));
        while i < self.outbox.len()
            invariant
                i <= self.outbox.len(),
                cs == cmd_views(self.outbox@),
                out@ == closings(cs.take(i as int)),
            decreases self.outbox.len() - i,
        {
            assert(cs.take(i + 1).drop_last() =~= cs.take(i as int));
            assert(cs.take(i + 1).last() == self.outbox@[i as int]@);
            match &self.outbox[i] {
                SurfaceCmd::Close(h) => {
                    out.push(*h);
                },
                _ => {},
            }
            i = i + 1;
        }
        assert(cs.take(i as int) =~= cs);
        out
    }

    /// The surface that a pane of the tab at `i` needs.
    fn request(&self, i: usize, which: PaneIdx) -> (r: Option<SpawnRequest>)
        requires
            i < self@.tabs.len(),
        ensures
            match r {
                Some(q) => request_at(self@, i as int, which) == Some(q@),
                None => request_at(self@, i as int, which) is None,
            },
    {
        assert(self@.tabs[i as int] == self.tabs@[i as int]@);
        let t: &TabEntry = &self.tabs[i];
        match which {
            PaneIdx::Primary => match t.primary.slot {
                TabSlot::Cold => Some(
                    SpawnRequest {
                        window: self.window,
                        spec: t.primary.spec.clone(),
                        rect: self.last_rect,
                        ended: self.ended(),
                    },
                ),
                _ => None,
            },
            PaneIdx::Secondary => match &t.secondary {
                Some(p) => match (p.slot, t.primary.slot) {
                    (TabSlot::Cold, TabSlot::Spawned(_)) => Some(
                        SpawnRequest {
                            window: self.window,
                            spec: p.spec.clone(),
                            rect: self.last_rect_secondary,
                            ended: self.ended(),
                        },
                    ),
                    _ => None,
                },
                None => None,
            },
        }
    }

    /// Spawn the surface that a pane of the tab at `i` needs, if any. Returns
    /// whether one was spawned; where that failed the pane stays as it is.
    fn ensure_spawned<F: Fn(&Ask) -> Outcome>(
        &mut self,
        i: usize,
        which: PaneIdx,
        spawn: &F,
    ) -> (r: Result<bool, SurfaceError>)
        requires
            i < old(self)@.tabs.len(),
            can_ask(spawn),
        ensures
            exists|o: Outcome|
                {
                    &&& answers(spawn, request_at(old(self)@, i as int, which), o)
                    &&& final(self)@ == #[trigger] settled_at(old(self)@, i as int, which, o)
                    &&& r == match request_at(old(self)@, i as int, which) {
                        Some(_) => match o {
                            Ok(_) => Ok::<bool, SurfaceError>(true),
                            Err(e) => Err(e),
                        },
                        None => Ok::<bool, SurfaceError>(false),
                    }
                },
    {
        let ghost v = self@;
        match self.request(i, which) {
            None => {
                let ghost o: Outcome = Ok(0);
                assert(answers(spawn, request_at(v, i as int, which), o));
                assert(self@ == settled_at(v, i as int, which, o));
                Ok(false)
            },
            Some(q) => {
                let a: Ask = Ask::Terminal(q);
                let o: Outcome = spawn(&a);
                proof {
                    let asked = &a;
                    assert(asked@ == AskView::Terminal(q@) && call_ensures(spawn, (asked,), o));
                    assert(answers(spawn, request_at(v, i as int, which), o));
                }
                match o {
                    Ok(h) => {
                        self.put_slot(i, which, TabSlot::Spawned(h));
                        assert(self@ == settled_at(v, i as int, which, o));
                        Ok(true)
                    },
                    Err(e) => {
                        assert(self@ == settled_at(v, i as int, which, o));
                        Err(e)
                    },
                }
            },
        }
    }

    /// Spawn the surfaces that the panes of the tab at `i` need. Only what came
    /// of the primary is reported: a second pane that cannot be spawned must not
    /// keep the tab from showing.
    fn bring_live<F: Fn(&Ask) -> Outcome>(&mut self, i: usize, spawn: &F) -> (r:
        Result<bool, SurfaceError>)
        requires
            i < old(self)@.tabs.len(),
            can_ask(spawn),
        ensures
            exists|p: Outcome, s: Outcome|
                {
                    &&& answers_at(spawn, old(self)@, i as int, p, s)
                    &&& final(self)@ == #[trigger] live_at(old(self)@, i as int, p, s)
                    &&& r == spawn_report(old(self)@, i as int, p)
                },
    {
        let ghost v = self@;
        let r: Result<bool, SurfaceError> = self.ensure_spawned(i, PaneIdx::Primary, spawn);
        let ghost p = choose|o: Outcome|
            {
                &&& answers(spawn, request_at(v, i as int, PaneIdx::Primary), o)
                &&& self@ == #[trigger] settled_at(v, i as int, PaneIdx::Primary, o)
                &&& r == match request_at(v, i as int, PaneIdx::Primary) {
                    Some(_) => match o {
                        Ok(_) => Ok::<bool, SurfaceError>(true),
                        Err(e) => Err(e),
                    },
                    None => Ok::<bool, SurfaceError>(false),
                }
            };
        let ghost mid = self@;
        let second: Result<bool, SurfaceError> = self.ensure_spawned(i, PaneIdx::Secondary, spawn);
        proof {
            let s = choose|o: Outcome|
                {
                    &&& answers(spawn, request_at(mid, i as int, PaneIdx::Secondary), o)
                    &&& self@ == #[trigger] settled_at(mid, i as int, PaneIdx::Secondary, o)
                    &&& second == match request_at(mid, i as int, PaneIdx::Secondary) {
                        Some(_) => match o {
                            Ok(_) => Ok::<bool, SurfaceError>(true),
                            Err(e) => Err(e),
                        },
                        None => Ok::<bool, SurfaceError>(false),
                    }
                };
            assert(answers_at(spawn, v, i as int, p, s));
            assert(self@ == live_at(v, i as int, p, s));
        }
        r
    }

    /// Show or hide the panes of the tab at `i`.
    fn display(&mut self, i: usize, shown: bool)
        requires
            i < old(self)@.tabs.len(),
        ensures
            final(self)@ == (RegistryView {
                outbox: old(self)@.outbox + display_entry(
                    old(self)@,
                    old(self)@.tabs[i as int],
                    shown,
                ),
                ..old(self)@
            }),
    {
        let ghost v = self@;
        let ghost t = v.tabs[i as int];
        assert(t == self.tabs@[i as int]@);
        let focused: PaneIdx = self.tabs[i].focused;
        match self.tabs[i].primary.slot {
            TabSlot::Spawned(h) => {
                if shown {
                    let rect: PixelRect = self.last_rect;
                    self.send(SurfaceCmd::SetFrame(h, rect));
                    self.send(SurfaceCmd::Show(h));
                    if focused == PaneIdx::Primary {
                        self.send(SurfaceCmd::Focus(h));
                    }
                } else {
                    self.send(SurfaceCmd::Hide(h));
                }
            },
            _ => {},
        }
        let ghost half = v.outbox + if shown {
            show_cmds(t.primary.slot, v.rect, t.focused is Primary)
        } else {
            hide_cmds(t.primary.slot)
        };
        assert(self@.outbox =~= half);
        let second: Option<TabSlot> = match &self.tabs[i].secondary {
            Some(p) => Some(p.slot),
            None => None,
        };
        match second {
            Some(TabSlot::Spawned(h)) => {
                if shown {
                    let rect: PixelRect = self.last_rect_secondary;
                    self.send(SurfaceCmd::SetFrame(h, rect));
                    self.send(SurfaceCmd::Show(h));
                    if focused == PaneIdx::Secondary {
                        self.send(SurfaceCmd::Focus(h));
                    }
                } else {
                    self.send(SurfaceCmd::Hide(h));
                }
            },
            _ => {},
        }
        assert(self@.outbox =~= v.outbox + display_entry(v, t, shown));
    }

    /// Show the tab at `i` and hide the others.
    fn show_only(&mut self, i: usize, id: &str)
        requires
            i < old(self)@.tabs.len(),
        ensures
            final(self)@ == shown_at(old(self)@, i as int, id@),
    {
        let ghost v = self@;
        let n: usize = self.tabs.len();
        let mut k: usize = 0;
        assert(v.outbox + display_cmds(v, i as int, 0) =~= v.outbox);
        while k < n
            invariant
                k <= n,
                n == v.tabs.len(),
                self@ == (RegistryView {
                    outbox: v.outbox + display_cmds(v, i as int, k as int),
                    ..v
                }),
            decreases n - k,
        {
            let ghost now = self@;
            self.display(k, k == i);
            assert(display_entry(now, now.tabs[k as int], k == i) == display_entry(
                v,
                v.tabs[k as int],
                k == i,
            ));
            k = k + 1;
            assert(self@.outbox =~= v.outbox + display_cmds(v, i as int, k as int));
        }
        self.active = Some(owned(id));
    }

    /// Show tab `id` and hide the others, spawning what it needs first. Returns
    /// whether its primary pane was spawned just now. Where that fails the tab
    /// is still the active one, and activating it again tries again. An unknown
    /// tab changes nothing.
    pub fn activate<F: Fn(&Ask) -> Outcome>(&mut self, id: &str, spawn: &F) -> (r:
        Result<bool, SurfaceError>)
        requires
            can_ask(spawn),
        ensures
            activation(spawn, old(self)@, id@, final(self)@, r),
    {
        let ghost v = self@;
        match self.position(id) {
            None => {
                let ghost o: Outcome = Ok(0);
                assert(activates(spawn, v, id@, o, o));
                assert(self@ == activated(v, id@, o, o));
                Ok(false)
            },
            Some(i) => {
                let r: Result<bool, SurfaceError> = self.bring_live(i, spawn);
                let ghost (p, s) = choose|p: Outcome, s: Outcome|
                    {
                        &&& answers_at(spawn, v, i as int, p, s)
                        &&& self@ == #[trigger] live_at(v, i as int, p, s)
                        &&& r == spawn_report(v, i as int, p)
                    };
                self.show_only(i, id);
                assert(activates(spawn, v, id@, p, s));
                assert(self@ == activated(v, id@, p, s));
                r
            },
        }
    }

    /// Add a tab. With `load_on_open` its surface is spawned now, hidden;
    /// otherwise it is spawned when the tab is first activated. Where spawning
    /// fails the tab is there all the same, and the error is returned. A tab
    /// with a declared split gets its second pane at once.
    pub fn add<F: Fn(&Ask) -> Outcome>(
        &mut self,
        spec: &TabSpec,
        load_on_open: bool,
        spawn: &F,
    ) -> (r: Result<(), SurfaceError>)
        requires
            can_ask(spawn),
        ensures
            adding(spawn, old(self)@, spec@, load_on_open, final(self)@, r),
    {
        let ghost v = self@;
        let idx: usize = self.tabs.len();
        assert(v.tabs.len() == idx);
        let p: Outcome = if load_on_open {
            let a: Ask = Ask::Terminal(
                SpawnRequest {
                    window: self.window,
                    spec: spec.clone(),
                    rect: self.last_rect,
                    ended: self.ended(),
                },
            );
            let o: Outcome = spawn(&a);
            proof {
                let asked = &a;
                assert(call_ensures(spawn, (asked,), o));
            }
            o
        } else {
            Ok(0)
        };
        let slot: TabSlot = match p {
            Ok(h) => if load_on_open {
                TabSlot::Spawned(h)
            } else {
                TabSlot::Cold
            },
            Err(_) => TabSlot::Cold,
        };
        let entry: TabEntry = TabEntry {
            id: spec.id.clone(),
            title: spec.title.clone(),
            primary: Pane { spec: spec.clone(), slot },
            secondary: None,
            focused: PaneIdx::Primary,
        };
        let ghost ev = entry@;
        self.tabs.push(entry);
        match slot {
            TabSlot::Spawned(h) => {
                self.send(SurfaceCmd::Hide(h));
            },
            _ => {},
        }
        assert(self@.tabs =~= v.tabs.push(ev));
        assert(self@.outbox =~= v.outbox + hide_cmds(slot));
        let r: Result<(), SurfaceError> = match p {
            Ok(_) => Ok(()),
            Err(e) => if load_on_open {
                Err(e)
            } else {
                Ok(())
            },
        };
        if spec.split.is_none() {
            assert(self@ == appended(v, spec@, load_on_open, p));
            assert(self@ == added(v, spec@, load_on_open, p, p));
            return r;
        }
        self.split(spec.id.as_str());
        assert(self@ == appended(v, spec@, load_on_open, p));
        proof {
            lemma_position(v.tabs.push(ev), spec@.id);
        }
        let ghost a = self@;
        let second: Result<bool, SurfaceError> = self.ensure_spawned(idx, PaneIdx::Secondary, spawn);
        let ghost s = choose|o: Outcome|
            {
                &&& answers(spawn, request_at(a, idx as int, PaneIdx::Secondary), o)
                &&& self@ == #[trigger] settled_at(a, idx as int, PaneIdx::Secondary, o)
                &&& second == match request_at(a, idx as int, PaneIdx::Secondary) {
                    Some(_) => match o {
                        Ok(_) => Ok::<bool, SurfaceError>(true),
                        Err(e) => Err(e),
                    },
                    None => Ok::<bool, SurfaceError>(false),
                }
            };
        match second {
            Ok(true) => {
                assert(self@.tabs.len() == self.tabs@.len());
                assert(self@.tabs[idx as int] == self.tabs@[idx as int]@);
                match &self.tabs[idx].secondary {
                    Some(Pane { slot: TabSlot::Spawned(h), .. }) => {
                        let handle: usize = *h;
                        self.send(SurfaceCmd::Hide(handle));
                    },
                    _ => {},
                }
            },
            _ => {},
        }
        assert(self@ == added(v, spec@, load_on_open, p, s));
        r
    }

    /// Give tab `id` a second pane, without a surface yet. A tab that has one
    /// keeps it, and an unknown tab changes nothing.
    pub fn split(&mut self, id: &str)
        ensures
            final(self)@ == split_tab(old(self)@, id@),
    {
        let ghost v = self@;
        match self.position(id) {
            None => {},
            Some(i) => {
                assert(v.tabs[i as int] == self.tabs@[i as int]@);
                if self.tabs[i].secondary.is_none() {
                    let spec: TabSpec = secondary_spec(&self.tabs[i].primary.spec, id);
                    self.tabs[i].secondary = Some(Pane { spec, slot: TabSlot::Cold });
                }
                assert(self@.tabs =~= split_tab(v, id@).tabs);
            },
        }
    }

    /// Take tab `id`'s second pane away, closing its surface. Returns whether
    /// there was one. The keyboard goes back to the primary pane.
    pub fn close_secondary(&mut self, id: &str) -> (r: bool)
        ensures
            final(self)@ == secondary_closed(old(self)@, id@),
            r == (known(old(self)@.tabs, id@) && tab_at(old(self)@.tabs, id@).secondary is Some),
    {
        let ghost v = self@;
        match self.position(id) {
            None => false,
            Some(i) => {
                assert(v.tabs[i as int] == self.tabs@[i as int]@);
                let second: Option<TabSlot> = match &self.tabs[i].secondary {
                    Some(p) => Some(p.slot),
                    None => None,
                };
                match second {
                    None => false,
                    Some(slot) => {
                        self.tabs[i].secondary = None;
                        self.tabs[i].focused = PaneIdx::Primary;
                        assert(self@.tabs =~= secondary_closed(v, id@).tabs);
                        self.send_close(slot);
                        true
                    },
                }
            },
        }
    }

    /// Close the surface in a slot, if one stands there.
    fn send_close(&mut self, slot: TabSlot)
        ensures
            final(self)@ == (RegistryView {
                outbox: old(self)@.outbox + close_cmds(slot),
                ..old(self)@
            }),
    {
        let ghost v = self@;
        match slot {
            TabSlot::Spawned(h) => {
                self.send(SurfaceCmd::Close(h));
            },
            _ => {},
        }
        assert(self@.outbox =~= v.outbox + close_cmds(slot));
    }

    /// Give the keyboard to a pane of tab `id`. Returns whether there is such a
    /// pane; otherwise nothing changes.
    pub fn focus_pane(&mut self, id: &str, which: PaneIdx) -> (r: bool)
        ensures
            r == (known(old(self)@.tabs, id@) && tab_at(old(self)@.tabs, id@).pane(which) is Some),
            final(self)@ == focus_moved(old(self)@, id@, which),
    {
        let ghost v = self@;
        match self.position(id) {
            None => false,
            Some(i) => {
                assert(v.tabs[i as int] == self.tabs@[i as int]@);
                let there: bool = match which {
                    PaneIdx::Primary => true,
                    PaneIdx::Secondary => self.tabs[i].secondary.is_some(),
                };
                if there {
                    self.tabs[i].focused = which;
                    assert(self@.tabs =~= focus_moved(v, id@, which).tabs);
                }
                there
            },
        }
    }

    /// Which pane of tab `id` has the keyboard; `None` for an unknown tab.
    pub fn focused_pane(&self, id: &str) -> (r: Option<PaneIdx>)
        ensures
            r == (if known(self@.tabs, id@) {
                Some(tab_at(self@.tabs, id@).focused)
            } else {
                None
            }),
    {
        match self.position(id) {
            None => None,
            Some(i) => {
                assert(self@.tabs[i as int] == self.tabs@[i as int]@);
                Some(self.tabs[i].focused)
            },
        }
    }

    /// Whether tab `id` has a second pane.
    pub fn is_split(&self, id: &str) -> (r: bool)
        ensures
            r == (known(self@.tabs, id@) && tab_at(self@.tabs, id@).secondary is Some),
    {
        match self.position(id) {
            None => false,
            Some(i) => {
                assert(self@.tabs[i as int] == self.tabs@[i as int]@);
                self.tabs[i].secondary.is_some()
            },
        }
    }

    fn live_entry(&self, i: usize) -> (r: bool)
        requires
            i < self@.tabs.len(),
        ensures
            r == self@.tabs[i as int].is_live(),
    {
        assert(self@.tabs[i as int] == self.tabs@[i as int]@);
        let first: bool = match self.tabs[i].primary.slot {
            TabSlot::Spawned(_) => true,
            _ => false,
        };
        let second: bool = match &self.tabs[i].secondary {
            Some(p) => match p.slot {
                TabSlot::Spawned(_) => true,
                _ => false,
            },
            None => false,
        };
        first || second
    }

    /// Whether one of tab `id`'s panes has a surface here.
    pub fn is_spawned(&self, id: &str) -> (r: bool)
        ensures
            r == (known(self@.tabs, id@) && tab_at(self@.tabs, id@).is_live()),
    {
        match self.position(id) {
            None => false,
            Some(i) => self.live_entry(i),
        }
    }

    /// Whether a pane of tab `id` stands for a popped-out surface.
    pub fn is_pane_detached(&self, id: &str, which: PaneIdx) -> (r: bool)
        ensures
            r == (known(self@.tabs, id@) && tab_at(self@.tabs, id@).slot(which) == Some(
                TabSlot::Detached,
            )),
    {
        match self.position(id) {
            None => false,
            Some(i) => {
                assert(self@.tabs[i as int] == self.tabs@[i as int]@);
                match which {
                    PaneIdx::Primary => self.tabs[i].primary.slot == TabSlot::Detached,
                    PaneIdx::Secondary => match &self.tabs[i].secondary {
                        Some(p) => p.slot == TabSlot::Detached,
                        None => false,
                    },
                }
            },
        }
    }

    /// Whether tab `id` is popped out. Only its primary pane counts: a tab is
    /// never popped out without it.
    pub fn is_detached(&self, id: &str) -> (r: bool)
        ensures
            r == popped_out(self@.tabs, id@),
    {
        let mut i: usize = 0;
        while i < self.tabs.len()
            invariant
                i <= self.tabs.len(),
                self@.tabs == entry_views(self.tabs@),
                forall|k: int|
                    0 <= k < i ==> !((#[trigger] self@.tabs[k]).id == id@
                        && self@.tabs[k].primary.slot is Detached),
            decreases self.tabs.len() - i,
        {
            assert(self@.tabs[i as int] == self.tabs@[i as int]@);
            if same(self.tabs[i].id.as_str(), id) && self.tabs[i].primary.slot
                == TabSlot::Detached {
                return true;
            }
            i = i + 1;
        }
        false
    }

    /// Whether tab `id` has a probe command.
    pub fn tab_has_probe(&self, id: &str) -> (r: bool)
        ensures
            r == has_probe(self@.tabs, id@),
    {
        let mut i: usize = 0;
        while i < self.tabs.len()
            invariant
                i <= self.tabs.len(),
                self@.tabs == entry_views(self.tabs@),
                forall|k: int|
                    0 <= k < i ==> !((#[trigger] self@.tabs[k]).id == id@
                        && self@.tabs[k].primary.spec.probe is Some),
            decreases self.tabs.len() - i,
        {
            assert(self@.tabs[i as int] == self.tabs@[i as int]@);
            if same(self.tabs[i].id.as_str(), id) && self.tabs[i].primary.spec.probe.is_some() {
                return true;
            }
            i = i + 1;
        }
        false
    }

    /// What the second pane of tab `id` runs, where it has one.
    pub fn secondary_pane_spec(&self, id: &str) -> (r: Option<TabSpec>)
        ensures
            match r {
                Some(s) => known(self@.tabs, id@) && tab_at(self@.tabs, id@).secondary is Some
                    && tab_at(self@.tabs, id@).secondary->0.spec == s@,
                None => !known(self@.tabs, id@) || tab_at(self@.tabs, id@).secondary is None,
            },
    {
        match self.position(id) {
            None => None,
            Some(i) => {
                assert(self@.tabs[i as int] == self.tabs@[i as int]@);
                match &self.tabs[i].secondary {
                    Some(p) => Some(p.spec.clone()),
                    None => None,
                }
            },
        }
    }

    /// The label of tab `id`.
    pub fn tab_title(&self, id: &str) -> (r: Option<String>)
        ensures
            opt_view(r) == (if known(self@.tabs, id@) {
                Some(tab_at(self@.tabs, id@).title)
            } else {
                None
            }),
    {
        match self.position(id) {
            None => None,
            Some(i) => {
                assert(self@.tabs[i as int] == self.tabs@[i as int]@);
                Some(self.tabs[i].title.clone())
            },
        }
    }

    /// The tab on screen.
    pub fn active_tab(&self) -> (r: Option<String>)
        ensures
            opt_view(r) == self@.active,
    {
        copy_opt(&self.active)
    }

    /// The tab and the pane that hold a surface.
    pub fn locate_surface(&self, surface_id: usize) -> (r: Option<(String, PaneIdx)>)
        ensures
            match r {
                Some(p) => located(self@.tabs, surface_id) == Some((p.0@, p.1)),
                None => located(self@.tabs, surface_id) is None,
            },
    {
        let mut i: usize = 0;
        while i < self.tabs.len()
            invariant
                i <= self.tabs.len(),
                self@.tabs == entry_views(self.tabs@),
                located(self@.tabs, surface_id) == located_from(self@.tabs, surface_id, i as int),
            decreases self.tabs.len() - i,
        {
            assert(self@.tabs[i as int] == self.tabs@[i as int]@);
            if self.tabs[i].primary.slot == TabSlot::Spawned(surface_id) {
                return Some((self.tabs[i].id.clone(), PaneIdx::Primary));
            }
            match &self.tabs[i].secondary {
                Some(p) => {
                    if p.slot == TabSlot::Spawned(surface_id) {
                        return Some((self.tabs[i].id.clone(), PaneIdx::Secondary));
                    }
                },
                None => {},
            }
            i = i + 1;
        }
        None
    }

    /// The tab that holds a surface.
    pub fn tab_of_surface(&self, surface_id: usize) -> (r: Option<String>)
        ensures
            opt_view(r) == match located(self@.tabs, surface_id) {
                Some(p) => Some(p.0),
                None => None,
            },
    {
        match self.locate_surface(surface_id) {
            Some(p) => Some(p.0),
            None => None,
        }
    }
}

impl Registry {
    /// Bring tab `id` live where it stands, so that it can be popped out. A tab
    /// that is popped out already, or unknown, changes nothing.
    pub fn ensure_spawned_by_id<F: Fn(&Ask) -> Outcome>(
        &mut self,
        id: &str,
        spawn: &F,
    ) -> (r: Result<(), SurfaceError>)
        requires
            can_ask(spawn),
        ensures
            spawning(spawn, old(self)@, id@, final(self)@, r),
    {
        let ghost v = self@;
        match self.position(id) {
            None => {
                let ghost o: Outcome = Ok(0);
                assert(activates(spawn, v, id@, o, o));
                Ok(())
            },
            Some(i) => {
                let r: Result<bool, SurfaceError> = self.bring_live(i, spawn);
                proof {
                    let (p, s) = choose|p: Outcome, s: Outcome|
                        {
                            &&& answers_at(spawn, v, i as int, p, s)
                            &&& self@ == #[trigger] live_at(v, i as int, p, s)
                            &&& r == spawn_report(v, i as int, p)
                        };
                    assert(activates(spawn, v, id@, p, s));
                }
                match r {
                    Ok(_) => Ok(()),
                    Err(e) => Err(e),
                }
            },
        }
    }

    /// The active tab at `i` lost its terminal: activate a live neighbour and
    /// return it, or show nothing.
    fn lean_to_live_neighbour<F: Fn(&Ask) -> Outcome>(
        &mut self,
        i: usize,
        spawn: &F,
    ) -> (r: Option<String>)
        requires
            i < old(self)@.tabs.len(),
            can_ask(spawn),
        ensures
            exists|p: Outcome, s: Outcome|
                {
                    &&& leans(spawn, old(self)@, i as int, p, s)
                    &&& final(self)@ == #[trigger] leaned(old(self)@, i as int, p, s)
                },
            opt_view(r) == lean_target(old(self)@, i as int),
    {
        let ghost v = self@;
        let mut live: Vec<bool> = Vec::new();
        let n: usize = self.tabs.len();
        assert(n == v.tabs.len());
        let mut k: usize = 0;
        while k < n
            invariant
                k <= n,
                n == self@.tabs.len(),
                live.len() == k,
                forall|j: int| 0 <= j < k ==> live@[j] == (#[trigger] self@.tabs[j]).is_live(),
            decreases n - k,
        {
            live.push(self.live_entry(k));
            k = k + 1;
        }
        assert(live@ =~= liveness(v.tabs));
        self.active = None;
        let ghost blank = RegistryView { active: None, ..v };
        assert(self@ == blank);
        match pick_live_neighbour(i, &live) {
            None => {
                let ghost o: Outcome = Ok(0);
                assert(leans(spawn, v, i as int, o, o));
                assert(self@ == leaned(v, i as int, o, o));
                None
            },
            Some(m) => {
                assert(blank.tabs[m as int] == self.tabs@[m as int]@);
                let next: String = self.tabs[m].id.clone();
                let report: Result<bool, SurfaceError> = self.activate(next.as_str(), spawn);
                proof {
                    let (p, s) = choose|p: Outcome, s: Outcome|
                        {
                            &&& activates(spawn, blank, next@, p, s)
                            &&& self@ == #[trigger] activated(blank, next@, p, s)
                            &&& report == activate_report(blank, next@, p)
                        };
                    assert(leans(spawn, v, i as int, p, s));
                    assert(self@ == leaned(v, i as int, p, s));
                }
                Some(next)
            },
        }
    }

    /// Close the surfaces of tab `id`, which goes cold. Where it was the active
    /// tab with a surface, a live neighbour is activated and returned: nothing
    /// is spawned merely to fill the hole.
    pub fn unload<F: Fn(&Ask) -> Outcome>(&mut self, id: &str, spawn: &F) -> (r:
        Option<String>)
        requires
            can_ask(spawn),
        ensures
            unloading(spawn, old(self)@, id@, final(self)@, opt_view(r)),
    {
        let ghost v = self@;
        match self.position(id) {
            None => None,
            Some(i) => {
                let ghost t = v.tabs[i as int];
                assert(t == self.tabs@[i as int]@);
                let first: TabSlot = self.tabs[i].primary.slot;
                let second: Option<TabSlot> = match &self.tabs[i].secondary {
                    Some(p) => Some(p.slot),
                    None => None,
                };
                let was_live: bool = self.live_entry(i);
                self.send_close(first);
                match second {
                    Some(slot) => {
                        self.send_close(slot);
                    },
                    None => {},
                }
                assert(self@.outbox =~= v.outbox + close_entry_cmds(t));
                self.put_slot(i, PaneIdx::Primary, cold_unless_detached(first));
                match second {
                    Some(slot) => {
                        self.put_slot(i, PaneIdx::Secondary, cold_unless_detached(slot));
                    },
                    None => {},
                }
                let ghost cold = TabEntryView {
                    primary: PaneView { slot: unloaded_slot(t.primary.slot), ..t.primary },
                    secondary: match t.secondary {
                        Some(p) => Some(PaneView { slot: unloaded_slot(p.slot), ..p }),
                        None => None,
                    },
                    ..t
                };
                assert(self@.tabs =~= v.tabs.update(i as int, cold));
                assert(self.tabs@[i as int]@ == self@.tabs[i as int]);
                assert(self.tabs@[i as int]@ == cold);
                if self.tabs[i].secondary.is_none() && self.tabs[i].primary.spec.split.is_some() {
                    proof {
                        lemma_position(v.tabs, id@);
                        lemma_same_ids(v.tabs, self@.tabs, id@, 0);
                    }
                    self.split(id);
                }
                assert(self@.tabs =~= surfaces_closed(v, id@).tabs);
                assert(self@ == surfaces_closed(v, id@));
                if !was_live {
                    return None;
                }
                let is_active: bool = match &self.active {
                    Some(a) => same(a.as_str(), id),
                    None => false,
                };
                if is_active {
                    return self.lean_to_live_neighbour(i, spawn);
                }
                None
            },
        }
    }

    /// The popped-out surfaces of tab `id` ended: it goes cold. Where it was the
    /// active tab, a live neighbour is activated and returned, as `unload` does.
    pub fn clear_detached<F: Fn(&Ask) -> Outcome>(
        &mut self,
        id: &str,
        spawn: &F,
    ) -> (r: Option<String>)
        requires
            can_ask(spawn),
        ensures
            clearing(spawn, old(self)@, id@, final(self)@, opt_view(r)),
    {
        let ghost v = self@;
        match self.position(id) {
            None => None,
            Some(i) => {
                let ghost t = v.tabs[i as int];
                assert(t == self.tabs@[i as int]@);
                let first: bool = self.tabs[i].primary.slot == TabSlot::Detached;
                let second: bool = match &self.tabs[i].secondary {
                    Some(p) => p.slot == TabSlot::Detached,
                    None => false,
                };
                if first {
                    self.put_slot(i, PaneIdx::Primary, TabSlot::Cold);
                }
                if second {
                    self.put_slot(i, PaneIdx::Secondary, TabSlot::Cold);
                }
                assert(self@.tabs =~= placeholders_cleared(v, id@).tabs);
                assert(self@ == placeholders_cleared(v, id@));
                if !first && !second {
                    return None;
                }
                let is_active: bool = match &self.active {
                    Some(a) => same(a.as_str(), id),
                    None => false,
                };
                if is_active {
                    return self.lean_to_live_neighbour(i, spawn);
                }
                None
            },
        }
    }

    /// Hand out the surfaces of tab `id` for a move to another window, leaving
    /// placeholders. They are not closed. `None`, with nothing changed, for a
    /// tab that is unknown, cold or popped out already.
    pub fn detach(&mut self, id: &str) -> (r: Option<(usize, Option<usize>)>)
        ensures
            r == detachable(old(self)@, id@),
            final(self)@ == detached(old(self)@, id@),
    {
        let ghost v = self@;
        match self.position(id) {
            None => None,
            Some(i) => {
                assert(v.tabs[i as int] == self.tabs@[i as int]@);
                match self.tabs[i].primary.slot {
                    TabSlot::Spawned(h) => {
                        let second: Option<usize> = match &self.tabs[i].secondary {
                            Some(p) => match p.slot {
                                TabSlot::Spawned(s) => Some(s),
                                _ => None,
                            },
                            None => None,
                        };
                        self.put_slot(i, PaneIdx::Primary, TabSlot::Detached);
                        match second {
                            Some(_) => {
                                self.put_slot(i, PaneIdx::Secondary, TabSlot::Detached);
                            },
                            None => {},
                        }
                        assert(self@.tabs =~= detached(v, id@).tabs);
                        Some((h, second))
                    },
                    _ => None,
                }
            },
        }
    }

    /// Give tab `id` its surfaces back. Both land or neither does: where the tab
    /// is unknown or one of its panes has a surface, they are handed back and
    /// nothing changes. A second surface whose pane is gone gets the pane back;
    /// a second pane whose surface ended elsewhere goes.
    pub fn attach(&mut self, id: &str, primary: usize, secondary: Option<usize>) -> (r: Result<
        (),
        (usize, Option<usize>),
    >)
        ensures
            match r {
                Ok(_) => attachable(old(self)@, id@, secondary) && final(self)@ == attached(
                    old(self)@,
                    id@,
                    primary,
                    secondary,
                ),
                Err(back) => !attachable(old(self)@, id@, secondary) && final(self)@ == old(self)@
                    && back == (primary, secondary),
            },
    {
        let ghost v = self@;
        match self.position(id) {
            None => Err((primary, secondary)),
            Some(i) => {
                let ghost t = v.tabs[i as int];
                assert(t == self.tabs@[i as int]@);
                let second: Option<TabSlot> = match &self.tabs[i].secondary {
                    Some(p) => Some(p.slot),
                    None => None,
                };
                match self.tabs[i].primary.slot {
                    TabSlot::Spawned(_) => {
                        return Err((primary, secondary));
                    },
                    _ => {},
                }
                match (secondary, second) {
                    (Some(_), Some(TabSlot::Spawned(_))) => {
                        return Err((primary, secondary));
                    },
                    _ => {},
                }
                match secondary {
                    Some(s) => {
                        self.split(id);
                        assert(self@.tabs =~= v.tabs.update(i as int, split_entry(t, id@)));
                        self.put_slot(i, PaneIdx::Secondary, TabSlot::Spawned(s));
                    },
                    None => {
                        match second {
                            Some(TabSlot::Detached) => {
                                self.tabs[i].secondary = None;
                                self.tabs[i].focused = PaneIdx::Primary;
                            },
                            _ => {},
                        }
                    },
                }
                assert(self@.tabs.len() == v.tabs.len());
                self.put_slot(i, PaneIdx::Primary, TabSlot::Spawned(primary));
                assert(self@.tabs =~= attached(v, id@, primary, secondary).tabs);
                Ok(())
            },
        }
    }

    /// Keep the rectangle that a pane has, and move the surface that shows in
    /// it now.
    pub fn set_pane_frame(&mut self, which: PaneIdx, rect: PixelRect)
        ensures
            final(self)@ == framed(old(self)@, which, rect),
    {
        let ghost v = self@;
        match which {
            PaneIdx::Primary => {
                self.last_rect = rect;
            },
            PaneIdx::Secondary => {
                self.last_rect_secondary = rect;
            },
        }
        let active: Option<String> = copy_opt(&self.active);
        match active {
            None => {},
            Some(a) => {
                match self.position(a.as_str()) {
                    None => {},
                    Some(i) => {
                        assert(v.tabs[i as int] == self.tabs@[i as int]@);
                        let slot: Option<TabSlot> = match which {
                            PaneIdx::Primary => Some(self.tabs[i].primary.slot),
                            PaneIdx::Secondary => match &self.tabs[i].secondary {
                                Some(p) => Some(p.slot),
                                None => None,
                            },
                        };
                        match slot {
                            Some(TabSlot::Spawned(h)) => {
                                self.send(SurfaceCmd::SetFrame(h, rect));
                            },
                            _ => {},
                        }
                    },
                }
            },
        }
    }

    /// Remove tab `id`, closing its surfaces.
    pub fn remove(&mut self, id: &str)
        ensures
            final(self)@ == removed(old(self)@, id@),
    {
        let ghost v = self@;
        match self.position(id) {
            None => {},
            Some(i) => {
                assert(v.tabs[i as int] == self.tabs@[i as int]@);
                let gone: TabEntry = self.tabs.remove(i);
                assert(self@.tabs =~= v.tabs.remove(i as int));
                self.send_close(gone.primary.slot);
                match &gone.secondary {
                    Some(p) => {
                        self.send_close(p.slot);
                    },
                    None => {},
                }
                assert(self@.outbox =~= v.outbox + close_entry_cmds(v.tabs[i as int]));
                let was_active: bool = match &self.active {
                    Some(a) => same(a.as_str(), id),
                    None => false,
                };
                if was_active {
                    self.active = None;
                }
            },
        }
    }

    /// Put the tabs into the given order. Those it does not name keep their
    /// order, after the others.
    pub fn reorder(&mut self, order: &Vec<String>)
        ensures
            final(self)@ == reordered(old(self)@, views(order@)),
    {
        let ghost v = self@;
        let ghost ov = views(order@);
        let mut out: Vec<TabEntry> = Vec::new();
        let n: usize = order.len();
        assert(ov.len() == n);
        let mut k: usize = 0;
        let mut done: bool = false;
        assert(entry_views(out@) =~= ranked_upto(v.tabs, ov, 0));
        while !done
            invariant
                k <= n,
                n == order.len(),
                ov == views(order@),
                ov.len() == n,
                self@ == v,
                v.tabs == entry_views(self.tabs@),
                done ==> entry_views(out@) == ranked_upto(v.tabs, ov, n + 1),
                !done ==> entry_views(out@) == ranked_upto(v.tabs, ov, k as int),
            decreases (if done {
                    0int
                } else {
                    n - k + 1
                }),
        {
            let ghost start = out@;
            let mut i: usize = 0;
            assert(v.tabs.take(0) =~= Seq::empty());
            assert(entry_views(start) + ranked(v.tabs.take(0), ov, k as int) =~= entry_views(
                start,
            ));
            while i < self.tabs.len()
                invariant
                    i <= self.tabs.len(),
                    k <= n,
                    n == order.len(),
                    ov == views(order@),
                    self@ == v,
                    v.tabs == entry_views(self.tabs@),
                    entry_views(out@) == entry_views(start) + ranked(
                        v.tabs.take(i as int),
                        ov,
                        k as int,
                    ),
                decreases self.tabs.len() - i,
            {
                let ghost before = out@;
                assert(v.tabs.take(i + 1).drop_last() =~= v.tabs.take(i as int));
                assert(v.tabs.take(i + 1).last() == self.tabs@[i as int]@);
                if rank_in(order, self.tabs[i].id.as_str()) == k {
                    out.push(self.tabs[i].clone());
                    assert(entry_views(out@) =~= entry_views(before).push(
                        self.tabs@[i as int]@,
                    ));
                }
                i = i + 1;
                assert(entry_views(out@) =~= entry_views(start) + ranked(
                    v.tabs.take(i as int),
                    ov,
                    k as int,
                ));
            }
            assert(v.tabs.take(i as int) =~= v.tabs);
            if k == n {
                done = true;
            } else {
                k = k + 1;
            }
        }
        self.tabs = out;
    }

    /// Close every surface and forget every tab.
    pub fn close_all(&mut self)
        ensures
            final(self)@ == emptied(old(self)@),
    {
        let ghost v = self@;
        let n: usize = self.tabs.len();
        let mut i: usize = 0;
        assert(v.outbox + close_all_cmds(v.tabs, 0) =~= v.outbox);
        while i < n
            invariant
                i <= n,
                n == v.tabs.len(),
                n == self.tabs.len(),
                self@ == (RegistryView {
                    outbox: v.outbox + close_all_cmds(v.tabs, i as int),
                    ..v
                }),
            decreases n - i,
        {
            assert(self@.tabs[i as int] == self.tabs@[i as int]@);
            let ghost before = self@.outbox;
            let first: TabSlot = self.tabs[i].primary.slot;
            let second: Option<TabSlot> = match &self.tabs[i].secondary {
                Some(p) => Some(p.slot),
                None => None,
            };
            self.send_close(first);
            match second {
                Some(slot) => {
                    self.send_close(slot);
                },
                None => {},
            }
            assert(self@.outbox =~= before + close_entry_cmds(v.tabs[i as int]));
            i = i + 1;
            assert(self@.outbox =~= v.outbox + close_all_cmds(v.tabs, i as int));
            assert(self@.tabs.len() == self.tabs@.len());
        }
        self.tabs = Vec::new();
        self.active = None;
        assert(self@.tabs =~= Seq::empty());
    }

    /// Apply new metadata to tab `id`: its label, its section, its commands,
    /// the layout of its split and its place in a project tree. Its terminals
    /// are left alone.
    pub fn set_meta(&mut self, id: &str, meta: &TabMeta, tree: bool, tree_path: Vec<String>)
        ensures
            final(self)@ == with_meta(old(self)@, id@, meta@, tree, views(tree_path@)),
    {
        let ghost v = self@;
        match self.position(id) {
            None => {},
            Some(i) => {
                assert(v.tabs[i as int] == self.tabs@[i as int]@);
                self.tabs[i].title = meta.title.clone();
                self.tabs[i].primary.spec.title = meta.title.clone();
                self.tabs[i].primary.spec.group = copy_opt(&meta.group);
                self.tabs[i].primary.spec.probe = copy_opt(&meta.probe);
                self.tabs[i].primary.spec.kill = copy_opt(&meta.kill);
                self.tabs[i].primary.spec.split = copy_split(&meta.split);
                self.tabs[i].primary.spec.tree = tree;
                self.tabs[i].primary.spec.tree_path = tree_path;
                assert(self@.tabs =~= with_meta(v, id@, meta@, tree, views(tree_path@)).tabs);
            },
        }
    }

    /// Type tab `id`'s startup command into its shell again. Returns whether
    /// there was a shell here and a command to type.
    pub fn start_session(&mut self, id: &str) -> (r: bool)
        ensures
            final(self)@ == (RegistryView {
                outbox: old(self)@.outbox + start_cmds(old(self)@, id@),
                ..old(self)@
            }),
            r == (start_cmds(old(self)@, id@).len() > 0),
    {
        let ghost v = self@;
        assert(v.outbox + Seq::<SurfaceCmdView>::empty() =~= v.outbox);
        match self.position(id) {
            None => false,
            Some(i) => {
                assert(v.tabs[i as int] == self.tabs@[i as int]@);
                let cmd: Option<String> = copy_opt(&self.tabs[i].primary.spec.startup);
                match (cmd, self.tabs[i].primary.slot) {
                    (Some(c), TabSlot::Spawned(h)) => {
                        let ghost cv = c@;
                        self.send(SurfaceCmd::Run(h, c));
                        assert(self@.outbox =~= v.outbox + seq![SurfaceCmdView::Run(h, cv)]);
                        true
                    },
                    _ => false,
                }
            },
        }
    }
}

/// One tab to probe: its identity, its directory, its label and the command.
pub type ProbeTarget = (String, String, String, String);

/// A probe target with its texts as sequences.
pub type ProbeTargetView = (Seq<char>, Seq<char>, Seq<char>, Seq<char>);

/// The views of a sequence of probe targets.
pub open spec fn target_views(s: Seq<ProbeTarget>) -> Seq<ProbeTargetView> {
    s.map_values(|t: ProbeTarget| (t.0@, t.1@, t.2@, t.3@))
}

/// The probe targets among `tabs`, in order. A tab without a surface counts: a
/// session can be alive all the same.
pub open spec fn targets_of(tabs: Seq<TabEntryView>) -> Seq<ProbeTargetView>
    decreases tabs.len(),
{
    if tabs.len() == 0 {
        Seq::empty()
    } else {
        let before = targets_of(tabs.drop_last());
        let t = tabs.last();
        match t.primary.spec.probe {
            Some(p) => before.push((t.id, t.primary.spec.dir, t.title, p)),
            None => before,
        }
    }
}

/// The layout of a declared split, as the chrome reads it.
#[derive(Debug, Clone, PartialEq)]
pub struct SplitLayoutDto {
    /// `left` or `right`.
    pub side: &'static str,
    /// The bit pattern of the fraction that the second pane takes.
    pub size: u64,
}

pub ghost struct SplitLayoutView {
    pub side: Seq<char>,
    pub size: u64,
}

/// What ends a tab for good: its directory, its title and the command, where
/// the tab has one.
pub open spec fn kill_of(tabs: Seq<TabEntryView>, id: Seq<char>) -> Option<
    (Seq<char>, Seq<char>, Seq<char>),
> {
    if known(tabs, id) {
        match tab_at(tabs, id).primary.spec.kill {
            Some(k) => Some((tab_at(tabs, id).primary.spec.dir, tab_at(tabs, id).title, k)),
            None => None,
        }
    } else {
        None
    }
}

/// The layout of a declared split.
pub open spec fn layout_of(s: Option<SplitView>) -> Option<SplitLayoutView> {
    match s {
        Some(x) => Some(
            SplitLayoutView {
                side: match x.side {
                    SplitSide::Left => "left"@,
                    SplitSide::Right => "right"@,
                },
                size: x.size,
            },
        ),
        None => None,
    }
}

/// What the chrome shows of one tab.
#[derive(Debug, Clone, PartialEq)]
pub struct TabDto {
    pub id: String,
    pub title: String,
    /// Whether the directory is missing now.
    pub warn: bool,
    /// Whether the primary pane has its surface here.
    pub spawned: bool,
    pub group: Option<String>,
    pub has_probe: bool,
    pub has_kill: bool,
    pub has_cmd: bool,
    pub tree: bool,
    pub tree_path: Vec<String>,
    /// Whether the tab is popped out.
    pub detached: bool,
    /// Whether the second pane has its surface here.
    pub secondary_spawned: bool,
    /// Whether there is a second pane at all.
    pub split: bool,
    /// The layout of the declared split, if any.
    pub split_layout: Option<SplitLayoutDto>,
    /// The last known session presence; nothing for a tab never probed.
    pub presence: Option<Presence>,
}

#[verifier::ext_equal]
pub ghost struct TabDtoView {
    pub id: Seq<char>,
    pub title: Seq<char>,
    pub warn: bool,
    pub spawned: bool,
    pub group: Option<Seq<char>>,
    pub has_probe: bool,
    pub has_kill: bool,
    pub has_cmd: bool,
    pub tree: bool,
    pub tree_path: Seq<Seq<char>>,
    pub detached: bool,
    pub secondary_spawned: bool,
    pub split: bool,
    pub split_layout: Option<SplitLayoutView>,
    pub presence: Option<Presence>,
}

impl View for TabDto {
    type V = TabDtoView;

    open spec fn view(&self) -> TabDtoView {
        TabDtoView {
            id: self.id@,
            title: self.title@,
            warn: self.warn,
            spawned: self.spawned,
            group: opt_view(self.group),
            has_probe: self.has_probe,
            has_kill: self.has_kill,
            has_cmd: self.has_cmd,
            tree: self.tree,
            tree_path: views(self.tree_path@),
            detached: self.detached,
            secondary_spawned: self.secondary_spawned,
            split: self.split,
            split_layout: match self.split_layout {
                Some(l) => Some(SplitLayoutView { side: l.side@, size: l.size }),
                None => None,
            },
            presence: self.presence,
        }
    }
}

/// The views of a sequence of rows.
pub open spec fn dto_views(s: Seq<TabDto>) -> Seq<TabDtoView> {
    s.map_values(|d: TabDto| d@)
}

/// What the chrome shows of one tab, given whether its directory is there.
pub open spec fn dto_of(t: TabEntryView, present: bool) -> TabDtoView {
    TabDtoView {
        id: t.id,
        title: t.title,
        warn: !present,
        spawned: t.primary.slot is Spawned,
        group: t.primary.spec.group,
        has_probe: t.primary.spec.probe is Some,
        has_kill: t.primary.spec.kill is Some,
        has_cmd: t.primary.spec.startup is Some,
        tree: t.primary.spec.tree,
        tree_path: t.primary.spec.tree_path,
        detached: t.primary.slot is Detached,
        secondary_spawned: t.secondary matches Some(p) && p.slot is Spawned,
        split: t.secondary is Some,
        split_layout: layout_of(t.primary.spec.split),
        presence: None,
    }
}

/// The directories of `tabs`.
pub open spec fn dirs_of(tabs: Seq<TabEntryView>) -> Seq<Seq<char>> {
    tabs.map_values(|t: TabEntryView| t.primary.spec.dir)
}

/// The rows of `tabs`, given which directories are there.
pub open spec fn dtos_of(tabs: Seq<TabEntryView>, present: Seq<bool>) -> Seq<TabDtoView> {
    Seq::new(tabs.len(), |i: int| dto_of(tabs[i], present[i]))
}

fn split_layout(s: &Option<Split>) -> (r: Option<SplitLayoutDto>)
    ensures
        match r {
            Some(l) => layout_of(split_view(*s)) == Some(
                SplitLayoutView { side: l.side@, size: l.size },
            ),
            None => layout_of(split_view(*s)) is None,
        },
{
    match s {
        Some(x) => Some(
            SplitLayoutDto {
                side: match x.side {
                    SplitSide::Left => "left",
                    SplitSide::Right => "right",
                },
                size: x.size,
            },
        ),
        None => None,
    }
}

impl TabEntry {
    /// What the chrome shows of this tab, given whether its directory is there.
    pub fn row(&self, present: bool) -> (r: TabDto)
        ensures
            r@ == dto_of(self@, present),
    {
        let spec: &TabSpec = &self.primary.spec;
        let (spawned, detached) = match self.primary.slot {
            TabSlot::Spawned(_) => (true, false),
            TabSlot::Cold => (false, false),
            TabSlot::Detached => (false, true),
        };
        let secondary_spawned: bool = match &self.secondary {
            Some(p) => match p.slot {
                TabSlot::Spawned(_) => true,
                _ => false,
            },
            None => false,
        };
        TabDto {
            id: self.id.clone(),
            title: self.title.clone(),
            warn: !present,
            spawned,
            group: copy_opt(&spec.group),
            has_probe: spec.probe.is_some(),
            has_kill: spec.kill.is_some(),
            has_cmd: spec.startup.is_some(),
            tree: spec.tree,
            tree_path: copy_list(&spec.tree_path),
            detached,
            secondary_spawned,
            split: self.secondary.is_some(),
            split_layout: split_layout(&spec.split),
            presence: None,
        }
    }
}

impl Registry {
    /// Every tab that has a probe command.
    pub fn probe_targets(&self) -> (r: Vec<ProbeTarget>)
        ensures
            target_views(r@) == targets_of(self@.tabs),
    {
        let ghost tv = self@.tabs;
        let mut out: Vec<ProbeTarget> = Vec::new();
        assert(target_views(out@) =~= targets_of(tv.take(0)));
        let mut i: usize = 0;
        while i < self.tabs.len()
            invariant
                i <= self.tabs.len(),
                tv == entry_views(self.tabs@),
                target_views(out@) == targets_of(tv.take(i as int)),
            decreases self.tabs.len() - i,
        {
            let ghost before = out@;
            assert(tv.take(i + 1).drop_last() =~= tv.take(i as int));
            assert(tv.take(i + 1).last() == self.tabs@[i as int]@);
            let t: &TabEntry = &self.tabs[i];
            match &t.primary.spec.probe {
                Some(p) => {
                    let target: ProbeTarget = (
                        t.id.clone(),
                        t.primary.spec.dir.clone(),
                        t.title.clone(),
                        p.clone(),
                    );
                    out.push(target);
                    assert(target_views(out@) =~= target_views(before).push(
                        (t.id@, t.primary.spec.dir@, t.title@, p@),
                    ));
                },
                None => {},
            }
            i = i + 1;
        }
        assert(tv.take(i as int) =~= tv);
        out
    }

    /// The directory, the label and the kill command of tab `id`, where it has
    /// one.
    pub fn kill_target(&self, id: &str) -> (r: Option<(String, String, String)>)
        ensures
            match r {
                Some(k) => known(self@.tabs, id@) && tab_at(self@.tabs, id@).primary.spec.kill
                    == Some(k.2@) && k.0@ == tab_at(self@.tabs, id@).primary.spec.dir && k.1@
                    == tab_at(self@.tabs, id@).title,
                None => !known(self@.tabs, id@) || tab_at(
                    self@.tabs,
                    id@,
                ).primary.spec.kill is None,
            },
            match r {
                Some(k) => kill_of(self@.tabs, id@) == Some((k.0@, k.1@, k.2@)),
                None => kill_of(self@.tabs, id@) is None,
            },
    {
        match self.position(id) {
            None => None,
            Some(i) => {
                assert(self@.tabs[i as int] == self.tabs@[i as int]@);
                let t: &TabEntry = &self.tabs[i];
                match &t.primary.spec.kill {
                    Some(k) => Some((t.primary.spec.dir.clone(), t.title.clone(), k.clone())),
                    None => None,
                }
            },
        }
    }

    /// What the chrome shows of every tab. Whether a directory is missing is
    /// looked up anew each time, so that a row never keeps a stale warning.
    pub fn tab_dtos(&self) -> (r: Vec<TabDto>)
        ensures
            exists|present: Seq<bool>|
                {
                    &&& all_looked_up(dirs_of(self@.tabs), present)
                    &&& dto_views(r@) == #[trigger] dtos_of(self@.tabs, present)
                },
    {
        let ghost tv = self@.tabs;
        let mut present: Vec<bool> = Vec::new();
        let mut out: Vec<TabDto> = Vec::new();
        let mut i: usize = 0;
        while i < self.tabs.len()
            invariant
                i <= self.tabs.len(),
                tv == entry_views(self.tabs@),
                out.len() == i,
                present.len() == i,
                forall|k: int| 0 <= k < i ==> #[trigger] out@[k]@ == dto_of(tv[k], present@[k]),
                forall|k: int|
                    0 <= k < i ==> looked_up((#[trigger] tv[k]).primary.spec.dir, present@[k]),
            decreases self.tabs.len() - i,
        {
            assert(tv[i as int] == self.tabs@[i as int]@);
            let there: bool = look_up(self.tabs[i].primary.spec.dir.as_str());
            out.push(self.tabs[i].row(there));
            present.push(there);
            i = i + 1;
        }
        assert(dto_views(out@) =~= dtos_of(tv, present@));
        assert forall|k: int| 0 <= k < tv.len() implies looked_up(
            #[trigger] dirs_of(tv)[k],
            present@[k],
        ) by {
            assert(dirs_of(tv)[k] == tv[k].primary.spec.dir);
        }
        assert(all_looked_up(dirs_of(tv), present@));
        out
    }

    /// The identities of the tabs, in order.
    pub fn tab_ids(&self) -> (r: Vec<String>)
        ensures
            views(r@) == self@.tabs.map_values(|t: TabEntryView| t.id),
    {
        let mut out: Vec<String> = Vec::new();
        let mut i: usize = 0;
        while i < self.tabs.len()
            invariant
                i <= self.tabs.len(),
                out.len() == i,
                forall|k: int| 0 <= k < i ==> #[trigger] out@[k]@ == self.tabs@[k].id@,
            decreases self.tabs.len() - i,
        {
            out.push(self.tabs[i].id.clone());
            i = i + 1;
        }
        assert(views(out@) =~= self@.tabs.map_values(|t: TabEntryView| t.id));
        out
    }
}

fn cold_unless_detached(slot: TabSlot) -> (r: TabSlot)
    ensures
        r == unloaded_slot(slot),
{
    match slot {
        TabSlot::Detached => TabSlot::Detached,
        _ => TabSlot::Cold,
    }
}

/// Two lists of tabs with the same identities have them at the same places.
pub proof fn lemma_same_ids(a: Seq<TabEntryView>, b: Seq<TabEntryView>, id: Seq<char>, i: int)
    requires
        a.len() == b.len(),
        0 <= i <= a.len(),
        forall|k: int| 0 <= k < a.len() ==> (#[trigger] a[k]).id == b[k].id,
    ensures
        position_from(a, id, i) == position_from(b, id, i),
    decreases a.len() - i,
{
    if i < a.len() {
        assert(a[i].id == b[i].id);
        lemma_same_ids(a, b, id, i + 1);
    }
}

/// Where `order` places `id`.
fn rank_in(order: &Vec<String>, id: &str) -> (r: usize)
    ensures
        r == rank(views(order@), id@),
{
    let ghost ov = views(order@);
    let mut k: usize = 0;
    while k < order.len()
        invariant
            k <= order.len(),
            ov == views(order@),
            rank(ov, id@) == rank_from(ov, id@, k as int),
        decreases order.len() - k,
    {
        assert(ov[k as int] == order@[k as int]@);
        if same(order[k].as_str(), id) {
            return k;
        }
        k = k + 1;
    }
    assert(ov.len() == order.len());
    order.len()
}

/// The live tab nearest to `idx`: the next one after it, or else the last one
/// before it.
pub fn pick_live_neighbour(idx: usize, live: &Vec<bool>) -> (r: Option<usize>)
    requires
        idx < live.len(),
    ensures
        match r {
            Some(n) => n < live.len() && live@[n as int] && live_neighbour(live@, idx as int)
                == Some(n as int),
            None => live_neighbour(live@, idx as int) is None,
        },
{
    let mut i: usize = idx + 1;
    while i < live.len()
        invariant
            idx < i <= live.len(),
            live_after(live@, idx + 1) == live_after(live@, i as int),
        decreases live.len() - i,
    {
        if live[i] {
            return Some(i);
        }
        i = i + 1;
    }
    let mut j: usize = idx;
    while j > 0
        invariant
            j <= idx < live.len(),
            live_after(live@, idx + 1) == live.len(),
            live_before(live@, idx as int) == live_before(live@, j as int),
        decreases j,
    {
        if live[j - 1] {
            return Some(j - 1);
        }
        j = j - 1;
    }
    None
}

/// What the second pane of a tab runs: the tab's shell in the tab's directory,
/// with the command of the declared split, if any.
pub fn secondary_spec(primary: &TabSpec, tab_id: &str) -> (r: TabSpec)
    ensures
        r@ == secondary_of(primary@, tab_id@),
{
    let mut spec: TabSpec = primary.clone();
    let mut id: String = owned(tab_id);
    id.append("::2");
    spec.id = id;
    spec.startup = match &primary.split {
        Some(s) => copy_opt(&s.startup),
        None => None,
    };
    spec.split = None;
    spec
}

} // verus!
