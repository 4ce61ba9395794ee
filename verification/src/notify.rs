//! What a signal from a terminal comes to: a badge on its tab and, for a
//! desktop notification, a banner.

use crate::surface::SurfaceSignal;
use crate::text::{is_blank, owned, trim};
use vstd::prelude::*;

verus! {

/// A banner to raise.
#[derive(Debug, PartialEq, Eq)]
pub struct Banner {
    pub title: String,
    pub body: String,
}

/// What to tell the user: a badge on a tab, and the banner where there is one.
/// A click on the banner leads back to the window and the tab.
#[derive(Debug, PartialEq, Eq)]
pub struct Notice {
    pub label: String,
    pub tab: String,
    pub banner: Option<Banner>,
}

/// The title of a banner: the program's own name where the terminal gave none.
pub open spec fn banner_title(title: Seq<char>) -> Seq<char> {
    if is_blank(title) {
        "warden"@
    } else {
        title
    }
}

/// Whether a signal of a surface that is where `located` says comes to a notice.
pub open spec fn is_noticed(located: Option<(Seq<char>, Seq<char>, bool)>) -> bool {
    match located {
        Some((_, _, visible)) => !visible,
        None => false,
    }
}

/// A banner is never without a title: the terminal's own where it gave one.
pub proof fn law_a_banner_has_a_title(title: Seq<char>)
    ensures
        !is_blank(title) ==> banner_title(title) == title,
        is_blank(title) ==> banner_title(title) == "warden"@,
        banner_title(title).len() > 0,
{
    reveal_strlit("warden");
    if title.len() == 0 {
        assert(is_blank(title));
    }
}

/// What a signal comes to, given where its surface is: nothing for a surface
/// that is gone and for a tab that is in view. A bell badges the tab; a
/// notification raises a banner too.
pub fn handle(located: Option<(String, String, bool)>, signal: SurfaceSignal) -> (r: Option<Notice>)
    ensures
        match located {
            Some((label, tab, visible)) => if visible {
                r is None
            } else {
                &&& r is Some
                &&& r->0.label@ == label@
                &&& r->0.tab@ == tab@
                &&& match signal {
                    SurfaceSignal::Bell => r->0.banner is None,
                    SurfaceSignal::Notification { title, body } => {
                        &&& r->0.banner is Some
                        &&& r->0.banner->0.title@ == banner_title(title@)
                        &&& r->0.banner->0.body@ == body@
                    },
                }
            },
            None => r is None,
        },
        r is Some <==> is_noticed(
            match located {
                Some((label, tab, visible)) => Some((label@, tab@, visible)),
                None => None,
            },
        ),
{
    match located {
        None => None,
        Some((label, tab, visible)) => {
            if visible {
                return None;
            }
            let banner: Option<Banner> = match signal {
                SurfaceSignal::Bell => None,
                SurfaceSignal::Notification { title, body } => {
                    let title: String = if trim(title.as_str()).unicode_len() == 0 {
                        owned("warden")
                    } else {
                        title
                    };
                    Some(Banner { title, body })
                },
            };
            Some(Notice { label, tab, banner })
        },
    }
}

} // verus!
