//! The birth of a popped-out window: its terminals move in one by one, and
//! whatever goes wrong leaves both of them where they came from.

use crate::text::{opt_view, owned};
use vstd::prelude::*;

verus! {

/// How far a birth has come: the move that is to be made next, or how it
/// ended.
#[derive(Debug, PartialEq, Eq)]
pub enum Birth {
    /// Move the first terminal into the new window.
    MovePrimary,
    /// Move the second one.
    MoveSecondary,
    /// Move the first one back; then the birth has failed, for this reason.
    MoveBack(String),
    /// Both are in.
    Born,
    /// Neither is, for this reason.
    Failed(String),
}

pub ghost enum BirthView {
    MovePrimary,
    MoveSecondary,
    MoveBack(Seq<char>),
    Born,
    Failed(Seq<char>),
}

impl View for Birth {
    type V = BirthView;

    open spec fn view(&self) -> BirthView {
        match self {
            Birth::MovePrimary => BirthView::MovePrimary,
            Birth::MoveSecondary => BirthView::MoveSecondary,
            Birth::MoveBack(m) => BirthView::MoveBack(m@),
            Birth::Born => BirthView::Born,
            Birth::Failed(m) => BirthView::Failed(m@),
        }
    }
}

/// How a birth starts. Two terminals are not moved at all where the first one
/// could not be moved back.
pub open spec fn birth_started(split: bool, origin_reachable: bool) -> BirthView {
    if split && !origin_reachable {
        BirthView::Failed("origin window has no NSWindow to roll a split pop-out back into"@)
    } else {
        BirthView::MovePrimary
    }
}

/// How a birth starts.
pub fn start_birth(split: bool, origin_reachable: bool) -> (r: Birth)
    ensures
        r@ == birth_started(split, origin_reachable),
{
    if split && !origin_reachable {
        Birth::Failed(owned("origin window has no NSWindow to roll a split pop-out back into"))
    } else {
        Birth::MovePrimary
    }
}

/// What comes after a move that worked, or failed for the reason `failed`.
pub open spec fn birth_after(b: BirthView, split: bool, failed: Option<Seq<char>>) -> BirthView {
    match b {
        BirthView::MovePrimary => match failed {
            Some(e) => BirthView::Failed("reparent failed: "@ + e),
            None => if split {
                BirthView::MoveSecondary
            } else {
                BirthView::Born
            },
        },
        BirthView::MoveSecondary => match failed {
            Some(e) => BirthView::MoveBack("reparent of the second pane failed: "@ + e),
            None => BirthView::Born,
        },
        BirthView::MoveBack(m) => BirthView::Failed(m),
        BirthView::Born => BirthView::Born,
        BirthView::Failed(m) => BirthView::Failed(m),
    }
}

/// What comes after a move that worked, or failed for the reason `failed`.
pub fn next_birth(b: Birth, split: bool, failed: Option<String>) -> (r: Birth)
    ensures
        r@ == birth_after(b@, split, opt_view(failed)),
{
    match b {
        Birth::MovePrimary => match failed {
            Some(e) => {
                let mut m: String = owned("reparent failed: ");
                m.append(e.as_str());
                Birth::Failed(m)
            },
            None => if split {
                Birth::MoveSecondary
            } else {
                Birth::Born
            },
        },
        Birth::MoveSecondary => match failed {
            Some(e) => {
                let mut m: String = owned("reparent of the second pane failed: ");
                m.append(e.as_str());
                Birth::MoveBack(m)
            },
            None => Birth::Born,
        },
        Birth::MoveBack(m) => Birth::Failed(m),
        Birth::Born => Birth::Born,
        Birth::Failed(m) => Birth::Failed(m),
    }
}

/// Which terminals are in the new window once a birth has come to `b`: a move
/// that failed moves nothing.
pub open spec fn moved_in(b: BirthView, split: bool) -> (bool, bool) {
    match b {
        BirthView::MovePrimary => (false, false),
        BirthView::MoveSecondary => (true, false),
        BirthView::MoveBack(_) => (true, false),
        BirthView::Born => (true, split),
        BirthView::Failed(_) => (false, false),
    }
}

/// Which terminals are in the new window after the next move: one that failed
/// moves nothing.
pub open spec fn after_move(b: BirthView, at: (bool, bool), failed: bool) -> (bool, bool) {
    if failed {
        at
    } else {
        match b {
            BirthView::MovePrimary => (true, at.1),
            BirthView::MoveSecondary => (at.0, true),
            BirthView::MoveBack(_) => (false, at.1),
            _ => at,
        }
    }
}

/// A birth leaves both terminals in the new window or both where they came
/// from: as long as moving back works, every step agrees with where the
/// terminals are, and a failed birth has moved neither.
pub proof fn law_no_terminal_is_stranded(b: BirthView, split: bool, failed: Option<Seq<char>>)
    requires
        !split ==> !(b is MoveSecondary) && !(b is MoveBack),
        b is MoveBack ==> failed is None,
    ensures
        moved_in(birth_after(b, split, failed), split) == after_move(
            b,
            moved_in(b, split),
            failed is Some,
        ),
        !split ==> !(birth_after(b, split, failed) is MoveSecondary) && !(birth_after(
            b,
            split,
            failed,
        ) is MoveBack),
        moved_in(birth_started(split, true), split) == (false, false),
        moved_in(birth_started(split, false), split) == (false, false),
{
}

/// A birth takes three moves at most.
pub proof fn law_births_end(
    split: bool,
    reachable: bool,
    a: Option<Seq<char>>,
    b: Option<Seq<char>>,
    c: Option<Seq<char>>,
)
    ensures
        ({
            let end = birth_after(
                birth_after(birth_after(birth_started(split, reachable), split, a), split, b),
                split,
                c,
            );
            end is Born || end is Failed
        }),
{
}

/// Without a failure a pop-out is born with both its terminals moved: the first
/// always, the second where the tab is split. A failure of the first move moves
/// nothing; one of the second moves the first back before the pop-out fails.
pub proof fn law_a_birth_moves_all_or_nothing(split: bool, failed: Seq<char>)
    ensures
        ({
            let first = birth_started(split, true);
            let second = birth_after(first, split, None);
            &&& first is MovePrimary
            &&& split ==> second is MoveSecondary && birth_after(second, split, None) is Born
            &&& !split ==> second is Born
            &&& birth_after(first, split, Some(failed)) is Failed
            &&& split ==> birth_after(second, split, Some(failed)) is MoveBack
            &&& split ==> birth_after(
                birth_after(second, split, Some(failed)),
                split,
                None,
            ) is Failed
            &&& birth_started(split, false) is Failed <==> split
        }),
        ({
            let first = birth_started(split, true);
            &&& birth_after(first, split, Some(failed))->Failed_0 == "reparent failed: "@ + failed
            &&& split ==> {
                let back = birth_after(birth_after(first, split, None), split, Some(failed));
                &&& back->MoveBack_0 == "reparent of the second pane failed: "@ + failed
                &&& birth_after(back, split, None)->Failed_0 == back->MoveBack_0
            }
        }),
{
}

} // verus!
